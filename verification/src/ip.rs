//! IP addresses, and the text that writes them down.
use crate::numeral::{
    decimal, digit_of, is_numeral, lemma_numeral_value, numeral, push_numeral, read_digits, value,
};
use crate::scan;
use crate::text::{
    find, join, lemma_find, lemma_find_unique, lemma_join_first, lemma_one_piece,
    lemma_pieces_of_join, lemma_span, occurs_at, other_than, pieces, slice_views, span,
};
use vstd::prelude::*;
use vstd::slice::slice_subrange;

verus! {

/// An IP address: the four bytes of version 4, or the eight segments of version
/// 6, most significant first.
#[derive(Debug, Clone, Copy, PartialEq, Eq)]
pub enum IpAddr {
    V4([u8; 4]),
    V6([u16; 8]),
}

/// What an [`IpAddr`] holds.
pub enum IpView {
    V4(Seq<u8>),
    V6(Seq<u16>),
}

impl View for IpAddr {
    type V = IpView;

    open spec fn view(&self) -> IpView {
        match self {
            IpAddr::V4(octets) => IpView::V4(octets@),
            IpAddr::V6(segments) => IpView::V6(segments@),
        }
    }
}

/// The byte that `s` writes down in base ten, without a leading zero.
pub open spec fn octet_of(s: Seq<char>) -> Option<u8> {
    if is_numeral(s, 10) && s.len() <= 3 && value(s, 10) <= 255 && (s[0] == '0' ==> s.len() == 1) {
        Some(value(s, 10) as u8)
    } else {
        None
    }
}

/// The four bytes that `s` writes down, with dots between them.
pub open spec fn v4_of(s: Seq<char>) -> Option<Seq<u8>> {
    let p = pieces(s, '.');
    if p.len() == 4 && octet_of(p[0]) is Some && octet_of(p[1]) is Some && octet_of(p[2]) is Some
        && octet_of(p[3]) is Some {
        Some(seq![octet_of(p[0])->0, octet_of(p[1])->0, octet_of(p[2])->0, octet_of(p[3])->0])
    } else {
        None
    }
}

/// The segment that `s` writes down: one to four digits of base sixteen.
pub open spec fn segment_of(s: Seq<char>) -> Option<u16> {
    if is_numeral(s, 16) && s.len() <= 4 {
        Some(value(s, 16) as u16)
    } else {
        None
    }
}

/// The two segments that the last part of an address of version 6 stands for
/// where it is written like an address of version 4.
pub open spec fn embedded(octets: Seq<u8>) -> Seq<u16> {
    seq![(octets[0] * 256 + octets[1]) as u16, (octets[2] * 256 + octets[3]) as u16]
}

/// The segments that the parts `p` write down; the last part may stand for two,
/// written like an address of version 4, where `v4_allowed` says so.
pub open spec fn parts_of(p: Seq<Seq<char>>, v4_allowed: bool) -> Option<Seq<u16>>
    decreases p.len(),
{
    if p.len() == 0 {
        Some(seq![])
    } else if p.len() == 1 && v4_allowed && v4_of(p[0]) is Some {
        Some(embedded(v4_of(p[0])->0))
    } else {
        match (segment_of(p[0]), parts_of(p.skip(1), v4_allowed)) {
            (Some(segment), Some(rest)) => Some(seq![segment] + rest),
            _ => None,
        }
    }
}

/// The segments that `s` writes down, with colons between them; none where `s`
/// is empty.
pub open spec fn segments_of(s: Seq<char>, v4_allowed: bool) -> Option<Seq<u16>> {
    if s.len() == 0 {
        Some(seq![])
    } else {
        parts_of(pieces(s, ':'), v4_allowed)
    }
}

/// Two colons.
pub open spec fn colons() -> Seq<char> {
    seq![':', ':']
}

/// `n` segments that are zero.
pub open spec fn zeros(n: nat) -> Seq<u16> {
    Seq::new(n, |i: int| 0u16)
}

/// The eight segments that `s` writes down: all of them, or fewer with two colons
/// in place of one or more that are zero.
pub open spec fn v6_of(s: Seq<char>) -> Option<Seq<u16>> {
    match find(s, colons()) {
        None => match segments_of(s, true) {
            Some(all) => if all.len() == 8 {
                Some(all)
            } else {
                None
            },
            None => None,
        },
        Some(i) => match (segments_of(s.take(i), false), segments_of(s.skip(i + 2), true)) {
            (Some(head), Some(tail)) => if head.len() + tail.len() <= 7 {
                Some(head + zeros((8 - head.len() - tail.len()) as nat) + tail)
            } else {
                None
            },
            _ => None,
        },
    }
}

/// The address that `s` writes down.
pub open spec fn ip_of(s: Seq<char>) -> Option<IpView> {
    match v4_of(s) {
        Some(octets) => Some(IpView::V4(octets)),
        None => match v6_of(s) {
            Some(segments) => Some(IpView::V6(segments)),
            None => None,
        },
    }
}

/// Up to four digits of base sixteen are worth no more than a segment can hold.
proof fn lemma_segment_fits(s: Seq<char>)
    requires
        is_numeral(s, 16),
        s.len() <= 4,
    ensures
        value(s, 16) <= 0xffff,
{
    reveal_with_fuel(value, 5);
    assert(s.len() == 1 || s.len() == 2 || s.len() == 3 || s.len() == 4);
}

fn read_octet(s: &[char]) -> (r: Option<u8>)
    ensures
        r == octet_of(s@),
{
    if s.len() > 3 || (s.len() > 1 && s[0] == '0') {
        return None;
    }
    match read_digits(s, 10, 255) {
        Some(n) => Some(n as u8),
        None => None,
    }
}

fn read_v4(s: &[char]) -> (r: Option<[u8; 4]>)
    ensures
        match r {
            Some(octets) => v4_of(s@) == Some(octets@),
            None => v4_of(s@) is None,
        },
{
    let p = scan::pieces(s, '.');
    let ghost views = slice_views(p@);
    if p.len() != 4 {
        return None;
    }
    assert(p@[0]@ == views[0] && p@[1]@ == views[1] && p@[2]@ == views[2] && p@[3]@ == views[3]);
    match (read_octet(p[0]), read_octet(p[1]), read_octet(p[2]), read_octet(p[3])) {
        (Some(a), Some(b), Some(c), Some(d)) => {
            let octets: [u8; 4] = [a, b, c, d];
            assert(octets@ =~= v4_of(s@)->0);
            Some(octets)
        },
        _ => None,
    }
}

fn read_segment(s: &[char]) -> (r: Option<u16>)
    ensures
        r == segment_of(s@),
{
    if s.len() > 4 {
        return None;
    }
    let n = read_digits(s, 16, 0xffff);
    proof {
        if is_numeral(s@, 16) {
            lemma_segment_fits(s@);
        }
    }
    match n {
        Some(n) => Some(n as u16),
        None => None,
    }
}

fn read_segments(s: &[char], v4_allowed: bool) -> (r: Option<Vec<u16>>)
    ensures
        match r {
            Some(segments) => segments_of(s@, v4_allowed) == Some(segments@),
            None => segments_of(s@, v4_allowed) is None,
        },
{
    let mut out: Vec<u16> = Vec::new();
    if s.len() == 0 {
        return Some(out);
    }
    let p = scan::pieces(s, ':');
    let ghost views = slice_views(p@);
    let mut i: usize = 0;
    assert(views.skip(0) =~= views);
    while i < p.len()
        invariant
            i <= p.len(),
            s@.len() > 0,
            views == slice_views(p@),
            views == pieces(s@, ':'),
            match parts_of(views.skip(i as int), v4_allowed) {
                Some(rest) => parts_of(views, v4_allowed) == Some(out@ + rest),
                None => parts_of(views, v4_allowed) is None,
            },
        decreases p.len() - i,
    {
        let ghost left = views.skip(i as int);
        assert(p@[i as int]@ == left[0]);
        assert(left.skip(1) =~= views.skip(i + 1));
        if v4_allowed && i == p.len() - 1 {
            if let Some(octets) = read_v4(p[i]) {
                let one: u16 = octets[0] as u16 * 256 + octets[1] as u16;
                let two: u16 = octets[2] as u16 * 256 + octets[3] as u16;
                let ghost before = out@;
                out.push(one);
                out.push(two);
                assert(out@ =~= before + embedded(octets@));
                return Some(out);
            }
        }
        match read_segment(p[i]) {
            Some(segment) => {
                let ghost before = out@;
                out.push(segment);
                proof {
                    if let Some(rest) = parts_of(left.skip(1), v4_allowed) {
                        assert(before + (seq![segment] + rest) =~= out@ + rest);
                    }
                }
            },
            None => {
                return None;
            },
        }
        i += 1;
    }
    assert(views.skip(p@.len() as int).len() == 0);
    assert(out@ + Seq::<u16>::empty() =~= out@);
    Some(out)
}

fn eight(v: &Vec<u16>) -> (r: [u16; 8])
    requires
        v@.len() == 8,
    ensures
        r@ == v@,
{
    let r: [u16; 8] = [v[0], v[1], v[2], v[3], v[4], v[5], v[6], v[7]];
    assert(r@ =~= v@);
    r
}

fn read_v6(s: &[char]) -> (r: Option<[u16; 8]>)
    ensures
        match r {
            Some(segments) => v6_of(s@) == Some(segments@),
            None => v6_of(s@) is None,
        },
{
    proof {
        reveal_strlit("::");
        assert("::"@ =~= colons());
    }
    match scan::find(s, "::") {
        None => match read_segments(s, true) {
            Some(all) => if all.len() == 8 {
                Some(eight(&all))
            } else {
                None
            },
            None => None,
        },
        Some(i) => {
            let n: usize = s.len();
            let before = slice_subrange(s, 0, i);
            let after = slice_subrange(s, i + 2, n);
            assert(before@ =~= s@.take(i as int));
            assert(after@ =~= s@.skip(i + 2));
            let head = read_segments(before, false);
            let tail = read_segments(after, true);
            match (head, tail) {
                (Some(head), Some(tail)) => {
                    if head.len() > 7 || tail.len() > 7 - head.len() {
                        return None;
                    }
                    let gap: usize = 8 - head.len() - tail.len();
                    let mut all: Vec<u16> = Vec::new();
                    let mut k: usize = 0;
                    while k < 8
                        invariant
                            k <= 8,
                            gap == 8 - head@.len() - tail@.len(),
                            head@.len() + tail@.len() <= 7,
                            all@ == (head@ + zeros(gap as nat) + tail@).take(k as int),
                        decreases 8 - k,
                    {
                        let segment: u16 = if k < head.len() {
                            head[k]
                        } else if k < head.len() + gap {
                            0
                        } else {
                            tail[k - head.len() - gap]
                        };
                        all.push(segment);
                        k += 1;
                        assert(all@ =~= (head@ + zeros(gap as nat) + tail@).take(k as int));
                    }
                    assert(all@ =~= head@ + zeros(gap as nat) + tail@);
                    Some(eight(&all))
                },
                _ => None,
            }
        },
    }
}

/// The address that `s` writes down.
pub fn parse_ip(s: &str) -> (r: Option<IpAddr>)
    ensures
        match r {
            Some(ip) => ip_of(s@) == Some(ip@),
            None => ip_of(s@) is None,
        },
{
    let chars = scan::to_chars(s);
    if let Some(octets) = read_v4(chars.as_slice()) {
        return Some(IpAddr::V4(octets));
    }
    match read_v6(chars.as_slice()) {
        Some(segments) => Some(IpAddr::V6(segments)),
        None => None,
    }
}

/// The text of an address of version 4: its bytes in base ten with dots between
/// them.
pub open spec fn v4_text(octets: Seq<u8>) -> Seq<char> {
    decimal(octets[0] as nat) + seq!['.'] + decimal(octets[1] as nat) + seq!['.'] + decimal(
        octets[2] as nat,
    ) + seq!['.'] + decimal(octets[3] as nat)
}

/// The text of each segment: its digits of base sixteen.
pub open spec fn segment_texts(segments: Seq<u16>) -> Seq<Seq<char>> {
    Seq::new(segments.len(), |i: int| numeral(segments[i] as nat, 16))
}

/// The text of some segments: each one's digits, with colons between them.
pub open spec fn segments_text(segments: Seq<u16>) -> Seq<char> {
    join(segment_texts(segments), seq![':'])
}

/// How many segments in a row are zero from position `i` on.
pub open spec fn zeros_at(segments: Seq<u16>, i: int) -> nat
    decreases segments.len() - i,
{
    if 0 <= i < segments.len() && segments[i] == 0 {
        1 + zeros_at(segments, i + 1)
    } else {
        0
    }
}

/// Of the first `n` positions, the first one from which the most segments in a
/// row are zero.
pub open spec fn longest_zeros(segments: Seq<u16>, n: nat) -> int
    decreases n,
{
    if n <= 1 {
        0
    } else {
        let best = longest_zeros(segments, (n - 1) as nat);
        if zeros_at(segments, n - 1) > zeros_at(segments, best) {
            n - 1
        } else {
            best
        }
    }
}

/// Whether an address of version 6 stands for one of version 4.
pub open spec fn is_v4_mapped(segments: Seq<u16>) -> bool {
    &&& segments[0] == 0
    &&& segments[1] == 0
    &&& segments[2] == 0
    &&& segments[3] == 0
    &&& segments[4] == 0
    &&& segments[5] == 0xffff
}

/// The bytes of the last two segments.
pub open spec fn last_octets(segments: Seq<u16>) -> Seq<u8> {
    seq![
        (segments[6] / 256) as u8,
        (segments[6] % 256) as u8,
        (segments[7] / 256) as u8,
        (segments[7] % 256) as u8,
    ]
}

/// The text of an address of version 6: the first longest run of two or more zero
/// segments stands as two colons, and an address that stands for one of version 4
/// ends in its text.
pub open spec fn v6_text(segments: Seq<u16>) -> Seq<char> {
    let start = longest_zeros(segments, 8);
    let run = zeros_at(segments, start) as int;
    if is_v4_mapped(segments) {
        "::ffff:"@ + v4_text(last_octets(segments))
    } else if run >= 2 {
        segments_text(segments.take(start)) + colons() + segments_text(
            segments.skip(start + run),
        )
    } else {
        segments_text(segments)
    }
}

/// The text of an address.
pub open spec fn ip_text(ip: IpView) -> Seq<char> {
    match ip {
        IpView::V4(octets) => v4_text(octets),
        IpView::V6(segments) => v6_text(segments),
    }
}

/// Whether `ip` has as many parts as an address of its version has.
pub open spec fn is_ip(ip: IpView) -> bool {
    match ip {
        IpView::V4(octets) => octets.len() == 4,
        IpView::V6(segments) => segments.len() == 8,
    }
}

proof fn lemma_zeros_at(segments: Seq<u16>, i: int)
    requires
        0 <= i <= segments.len(),
    ensures
        i + zeros_at(segments, i) <= segments.len(),
        forall|j: int| i <= j < i + zeros_at(segments, i) ==> segments[j] == 0,
        i + zeros_at(segments, i) < segments.len() ==> segments[i + zeros_at(segments, i)] != 0,
    decreases segments.len() - i,
{
    if i < segments.len() && segments[i] == 0 {
        lemma_zeros_at(segments, i + 1);
    }
}

proof fn lemma_longest_zeros(segments: Seq<u16>, n: nat)
    requires
        1 <= n <= segments.len(),
    ensures
        0 <= longest_zeros(segments, n) < n,
    decreases n,
{
    if n > 1 {
        lemma_longest_zeros(segments, (n - 1) as nat);
    }
}

fn push_v4(out: &mut String, octets: [u8; 4])
    ensures
        final(out)@ == old(out)@ + v4_text(octets@),
{
    push_numeral(out, octets[0] as u64, 10);
    out.push('.');
    push_numeral(out, octets[1] as u64, 10);
    out.push('.');
    push_numeral(out, octets[2] as u64, 10);
    out.push('.');
    push_numeral(out, octets[3] as u64, 10);
    assert(out@ =~= old(out)@ + v4_text(octets@));
}

/// Appends the segments from position `from` up to `to`.
fn push_segments(out: &mut String, segments: &[u16; 8], from: usize, to: usize)
    requires
        from <= to <= 8,
    ensures
        final(out)@ == old(out)@ + segments_text(segments@.subrange(from as int, to as int)),
{
    let ghost before = out@;
    let ghost texts = segment_texts(segments@.subrange(from as int, to as int));
    let mut i: usize = from;
    assert(out@ =~= before + join(texts.take(0), seq![':']));
    while i < to
        invariant
            from <= i <= to <= 8,
            texts == segment_texts(segments@.subrange(from as int, to as int)),
            out@ == before + join(texts.take(i - from), seq![':']),
        decreases to - i,
    {
        let ghost prior = texts.take(i - from);
        let ghost next = texts.take(i + 1 - from);
        assert(next.drop_last() =~= prior);
        assert(next.last() == numeral(segments@[i as int] as nat, 16));
        if i > from {
            out.push(':');
        }
        push_numeral(out, segments[i] as u64, 16);
        i += 1;
        assert(out@ =~= before + join(next, seq![':']));
    }
    assert(texts.take(to - from) =~= texts);
}

fn count_zeros(segments: &[u16; 8], start: usize) -> (n: usize)
    requires
        start <= 8,
    ensures
        n == zeros_at(segments@, start as int),
        start + n <= 8,
    decreases 8 - start,
{
    if start < 8 && segments[start] == 0 {
        1 + count_zeros(segments, start + 1)
    } else {
        0
    }
}

fn push_v6(out: &mut String, segments: [u16; 8])
    ensures
        final(out)@ == old(out)@ + v6_text(segments@),
{
    if segments[0] == 0 && segments[1] == 0 && segments[2] == 0 && segments[3] == 0 && segments[4]
        == 0 && segments[5] == 0xffff {
        let octets: [u8; 4] = [
            (segments[6] / 256) as u8,
            (segments[6] % 256) as u8,
            (segments[7] / 256) as u8,
            (segments[7] % 256) as u8,
        ];
        assert(octets@ =~= last_octets(segments@));
        out.append("::ffff:");
        push_v4(out, octets);
        assert(out@ =~= old(out)@ + v6_text(segments@));
        return;
    }
    let mut start: usize = 0;
    let mut run: usize = count_zeros(&segments, 0);
    let mut i: usize = 1;
    while i < 8
        invariant
            1 <= i <= 8,
            start < i,
            start == longest_zeros(segments@, i as nat),
            run == zeros_at(segments@, start as int),
            start + run <= 8,
        decreases 8 - i,
    {
        let here: usize = count_zeros(&segments, i);
        if here > run {
            start = i;
            run = here;
        }
        i += 1;
    }
    if run >= 2 {
        push_segments(out, &segments, 0, start);
        out.append("::");
        push_segments(out, &segments, start + run, 8);
        proof {
            reveal_strlit("::");
            assert("::"@ =~= colons());
            assert(segments@.subrange(0, start as int) =~= segments@.take(start as int));
            assert(segments@.subrange(start + run, 8) =~= segments@.skip(start + run));
            assert(out@ =~= old(out)@ + v6_text(segments@));
        }
    } else {
        push_segments(out, &segments, 0, 8);
        assert(segments@.subrange(0, 8) =~= segments@);
    }
}

impl IpAddr {
    /// The address as text.
    pub fn text(&self) -> (r: String)
        ensures
            r@ == ip_text(self@),
    {
        let mut out = String::new();
        match self {
            IpAddr::V4(octets) => push_v4(&mut out, *octets),
            IpAddr::V6(segments) => push_v6(&mut out, *segments),
        }
        assert(out@ =~= ip_text(self@));
        out
    }
}

/// The digits of a byte read as that byte.
proof fn lemma_octet_reads_back(n: u8)
    ensures
        octet_of(decimal(n as nat)) == Some(n),
        decimal(n as nat).len() > 0,
        forall|i: int|
            0 <= i < decimal(n as nat).len() ==> digit_of(#[trigger] decimal(n as nat)[i]) < 10,
{
    lemma_numeral_value(n as nat, 10);
    reveal_with_fuel(numeral, 4);
}

/// The digits of a segment read as that segment.
proof fn lemma_segment_reads_back(n: u16)
    ensures
        segment_of(numeral(n as nat, 16)) == Some(n),
        numeral(n as nat, 16).len() > 0,
        forall|i: int|
            0 <= i < numeral(n as nat, 16).len() ==> digit_of(#[trigger] numeral(n as nat, 16)[i])
                < 16,
{
    lemma_numeral_value(n as nat, 16);
    reveal_with_fuel(numeral, 5);
}

/// The text of an address of version 4 reads as that address, and holds no colon.
proof fn lemma_v4_reads_back(octets: Seq<u8>)
    requires
        octets.len() == 4,
    ensures
        v4_of(v4_text(octets)) == Some(octets),
        forall|i: int| 0 <= i < v4_text(octets).len() ==> #[trigger] v4_text(octets)[i] != ':',
        v4_text(octets).len() > 0,
{
    let parts = Seq::new(4, |i: int| decimal(octets[i] as nat));
    assert forall|i: int, j: int|
        0 <= i < parts.len() && 0 <= j < parts[i].len() implies #[trigger] parts[i][j] != '.'
        && parts[i][j] != ':' by {
        lemma_octet_reads_back(octets[i]);
        assert(digit_of(decimal(octets[i] as nat)[j]) < 10);
    }
    lemma_octet_reads_back(octets[0]);
    lemma_octet_reads_back(octets[1]);
    lemma_octet_reads_back(octets[2]);
    lemma_octet_reads_back(octets[3]);
    let dot = seq!['.'];
    reveal_with_fuel(join, 5);
    assert(parts.drop_last().drop_last().drop_last()[0] == parts[0]);
    assert(join(parts, dot) =~= v4_text(octets));
    lemma_pieces_of_join(parts, '.');
    assert(v4_of(v4_text(octets))->0 =~= octets);
    let s = v4_text(octets);
    assert forall|i: int| 0 <= i < s.len() implies #[trigger] s[i] != ':' by {
        let a = parts[0].len();
        let b = parts[1].len();
        let c = parts[2].len();
        if i < a {
            assert(s[i] == parts[0][i]);
        } else if i == a {
        } else if i < a + 1 + b {
            assert(s[i] == parts[1][i - a - 1]);
        } else if i == a + 1 + b {
        } else if i < a + b + c + 2 {
            assert(s[i] == parts[2][i - a - b - 2]);
        } else if i == a + b + c + 2 {
        } else {
            assert(s[i] == parts[3][i - a - b - c - 3]);
        }
    }
}

/// Whether `s` is not empty, has no colon at either end and no two in a row, and
/// holds no dot.
spec fn is_plain(s: Seq<char>) -> bool {
    &&& s.len() > 0
    &&& s[0] != ':'
    &&& s.last() != ':'
    &&& forall|i: int| !#[trigger] occurs_at(s, colons(), i)
    &&& forall|i: int| 0 <= i < s.len() ==> #[trigger] s[i] != '.'
}

/// Two colons stand where each of them stands.
proof fn lemma_colons_at(s: Seq<char>, i: int)
    ensures
        occurs_at(s, colons(), i) <==> 0 <= i && i + 2 <= s.len() && s[i] == ':' && s[i + 1]
            == ':',
{
    if 0 <= i && i + 2 <= s.len() {
        let two = s.subrange(i, i + 2);
        assert(two[0] == s[i] && two[1] == s[i + 1]);
        assert(s[i] == ':' && s[i + 1] == ':' ==> two =~= colons());
    }
}

/// The text of some segments reads as those segments.
proof fn lemma_segments_read_back(segments: Seq<u16>, v4_allowed: bool)
    ensures
        segments_of(segments_text(segments), v4_allowed) == Some(segments),
        segments.len() > 0 ==> is_plain(segments_text(segments)),
        segments.len() == 0 ==> segments_text(segments).len() == 0,
{
    let texts = segment_texts(segments);
    if segments.len() > 0 {
        assert forall|i: int, j: int|
            0 <= i < texts.len() && 0 <= j < texts[i].len() implies #[trigger] texts[i][j] != ':' by {
            lemma_segment_reads_back(segments[i]);
            assert(digit_of(numeral(segments[i] as nat, 16)[j]) < 16);
        }
        lemma_pieces_of_join(texts, ':');
        lemma_plain(segments);
        lemma_parts_read_back(segments, v4_allowed);
    } else {
        assert(segments =~= seq![]);
    }
}

proof fn lemma_plain(segments: Seq<u16>)
    requires
        segments.len() > 0,
    ensures
        is_plain(segments_text(segments)),
    decreases segments.len(),
{
    let texts = segment_texts(segments);
    let last = texts.last();
    lemma_segment_reads_back(segments.last());
    assert forall|i: int| 0 <= i < last.len() implies #[trigger] last[i] != ':' && last[i]
        != '.' by {
        assert(digit_of(numeral(segments.last() as nat, 16)[i]) < 16);
    }
    if segments.len() > 1 {
        let front = segments.drop_last();
        lemma_plain(front);
        assert(segment_texts(front) =~= texts.drop_last());
        let a = segments_text(front);
        let s = segments_text(segments);
        assert(s == a + seq![':'] + last);
        assert forall|i: int| 0 <= i < s.len() implies #[trigger] s[i] != '.' by {
            if i < a.len() {
                assert(s[i] == a[i]);
            } else if i > a.len() {
                assert(s[i] == last[i - a.len() - 1]);
            }
        }
        assert forall|i: int| !#[trigger] occurs_at(s, colons(), i) by {
            lemma_colons_at(s, i);
            lemma_colons_at(a, i);
            if 0 <= i && i + 2 <= s.len() {
                if i < a.len() - 1 {
                    assert(s[i] == a[i] && s[i + 1] == a[i + 1]);
                } else if i == a.len() - 1 {
                    assert(s[i] == a.last());
                } else {
                    assert(s[i + 1] == last[i - a.len()]);
                }
            }
        }
        assert(s[0] == a[0]);
        assert(s.last() == last.last());
    } else {
        assert(segments_text(segments) == last);
        assert forall|i: int| !#[trigger] occurs_at(last, colons(), i) by {
            lemma_colons_at(last, i);
        }
    }
}

proof fn lemma_parts_read_back(segments: Seq<u16>, v4_allowed: bool)
    ensures
        parts_of(segment_texts(segments), v4_allowed) == Some(segments),
    decreases segments.len(),
{
    let texts = segment_texts(segments);
    if segments.len() > 0 {
        lemma_parts_read_back(segments.skip(1), v4_allowed);
        lemma_segment_reads_back(segments[0]);
        assert(segment_texts(segments.skip(1)) =~= texts.skip(1));
        assert forall|j: int| 0 <= j < texts[0].len() implies #[trigger] texts[0][j] != '.' by {
            assert(digit_of(numeral(segments[0] as nat, 16)[j]) < 16);
        }
        lemma_one_piece(texts[0], '.');
        assert(v4_of(texts[0]) is None);
        assert(segments =~= seq![segments[0]] + segments.skip(1));
    } else {
        assert(segments =~= seq![]);
    }
}

/// The text of an address of version 6 that stands for one of version 4 reads as
/// that address.
proof fn lemma_mapped_reads_back(segments: Seq<u16>)
    requires
        segments.len() == 8,
        is_v4_mapped(segments),
    ensures
        ip_of(v6_text(segments)) == Some(IpView::V6(segments)),
{
    let s = v6_text(segments);
    let octets = last_octets(segments);
    let ffff = seq!['f', 'f', 'f', 'f'];
    lemma_v4_reads_back(octets);
    assert(s.subrange(0, 2) =~= colons() && s[0] == ':' && s.skip(2) =~= ffff + seq![':'] + v4_text(
        octets,
    )) by {
        reveal_strlit("::ffff:");
    }
    lemma_find_unique(s, colons(), 0);
    assert(s.take(0) =~= seq![]);
    let parts = seq![ffff, v4_text(octets)];
    assert(pieces(s.skip(2), ':') == parts) by {
        lemma_join_first(parts, seq![':']);
        assert(parts.skip(1) =~= seq![v4_text(octets)]);
        lemma_pieces_of_join(parts, ':');
    }
    assert(segment_of(ffff) == Some(0xffffu16)) by {
        reveal_with_fuel(value, 5);
        assert(ffff.drop_last().drop_last().drop_last().drop_last() =~= seq![]);
        assert(value(ffff, 16) == 0xffff);
    }
    assert(parts_of(parts, true) == Some(seq![0xffffu16] + embedded(octets))) by {
        assert(parts.skip(1) =~= seq![v4_text(octets)]);
        assert(parts_of(parts.skip(1), true) == Some(embedded(octets)));
    }
    assert(Seq::<u16>::empty() + zeros(5) + (seq![0xffffu16] + embedded(octets)) =~= segments);
    assert(v6_of(s) == Some(segments));
    lemma_leading_colon_is_no_v4(s);
}

/// Two colons behind a text without any, or with none but single ones inside, are
/// the first two.
proof fn lemma_colons_first(h: Seq<char>, t: Seq<char>)
    requires
        h.len() == 0 || is_plain(h),
    ensures
        find(h + colons() + t, colons()) == Some(h.len() as int),
{
    let s = h + colons() + t;
    let n = h.len() as int;
    lemma_colons_at(s, n);
    assert forall|j: int| 0 <= j < n implies !#[trigger] occurs_at(s, colons(), j) by {
        lemma_colons_at(s, j);
        lemma_colons_at(h, j);
        assert(s[j] == h[j]);
        if j < n - 1 {
            assert(s[j + 1] == h[j + 1]);
            assert(!occurs_at(h, colons(), j));
        }
    }
    lemma_find_unique(s, colons(), n);
}

/// An address of version 6 reads back from its text with two colons in place of
/// `run` zeros from `start` on.
#[verifier::spinoff_prover]
#[verifier::rlimit(60)]
proof fn lemma_short_reads_back(segments: Seq<u16>, start: int, run: int)
    requires
        segments.len() == 8,
        0 <= start,
        1 <= run,
        start + run <= 8,
        forall|j: int| start <= j < start + run ==> segments[j] == 0,
    ensures
        ip_of(
            segments_text(segments.take(start)) + colons() + segments_text(
                segments.skip(start + run),
            ),
        ) == Some(IpView::V6(segments)),
{
    let head = segments.take(start);
    let tail = segments.skip(start + run);
    let h = segments_text(head);
    let t = segments_text(tail);
    let s = h + colons() + t;
    let n = h.len() as int;
    lemma_segments_read_back(head, false);
    lemma_segments_read_back(tail, true);
    lemma_colons_first(h, t);
    assert(s.take(n) =~= h);
    assert(s.skip(n + 2) =~= t);
    assert(head + zeros(run as nat) + tail =~= segments);
    assert(v6_of(s) == Some(segments));
    assert(pieces(s, '.') == seq![s]) by {
        assert forall|j: int| 0 <= j < s.len() implies #[trigger] s[j] != '.' by {
            if j < n {
                assert(s[j] == h[j]);
            } else if j >= n + 2 {
                assert(s[j] == t[j - n - 2]);
            }
        }
        lemma_one_piece(s, '.');
    }
    assert(v4_of(s) is None);
}

/// An address of version 6 reads back from the text of all its segments.
proof fn lemma_full_reads_back(segments: Seq<u16>)
    requires
        segments.len() == 8,
    ensures
        ip_of(segments_text(segments)) == Some(IpView::V6(segments)),
{
    let s = segments_text(segments);
    lemma_segments_read_back(segments, true);
    lemma_find(s, colons());
    assert(v6_of(s) == Some(segments));
    lemma_one_piece(s, '.');
}

/// What begins with a colon is no address of version 4.
proof fn lemma_leading_colon_is_no_v4(s: Seq<char>)
    requires
        s.len() > 0,
        s[0] == ':',
    ensures
        v4_of(s) is None,
{
    let n = span(s, other_than('.')) as int;
    let p = pieces(s, '.');
    lemma_span(s, other_than('.'));
    assert(n > 0);
    assert(p[0].len() > 0 && p[0][0] == ':');
    assert(digit_of(p[0][0]) >= 10);
}

/// The text of an address reads as that address.
pub proof fn lemma_ip_reads_back(ip: IpView)
    requires
        is_ip(ip),
    ensures
        ip_of(ip_text(ip)) == Some(ip),
{
    match ip {
        IpView::V4(octets) => lemma_v4_reads_back(octets),
        IpView::V6(segments) => {
            let start = longest_zeros(segments, 8);
            let run = zeros_at(segments, start) as int;
            lemma_longest_zeros(segments, 8);
            lemma_zeros_at(segments, start);
            if is_v4_mapped(segments) {
                lemma_mapped_reads_back(segments);
            } else if run >= 2 {
                lemma_short_reads_back(segments, start, run);
            } else {
                lemma_full_reads_back(segments);
            }
        },
    }
}

} // verus!
