//! Numbers as text: what a run of digits is worth, and the digits of a number.
use vstd::arithmetic::div_mod::lemma_fundamental_div_mod;
use vstd::prelude::*;

verus! {

/// What `c` is worth as a digit; 16 where it is no digit in any base up to 16.
pub open spec fn digit_of(c: char) -> nat {
    if '0' <= c <= '9' {
        (c as int - '0' as int) as nat
    } else if 'a' <= c <= 'f' {
        (c as int - 'a' as int + 10) as nat
    } else if 'A' <= c <= 'F' {
        (c as int - 'A' as int + 10) as nat
    } else {
        16
    }
}

/// The digit worth `d`, in lower case.
pub open spec fn digit_char(d: nat) -> char {
    if d < 10 {
        ('0' as int + d) as char
    } else {
        ('a' as int + d - 10) as char
    }
}

/// Whether `s` is a run of digits of base `radix`, at least one.
pub open spec fn is_numeral(s: Seq<char>, radix: nat) -> bool {
    &&& s.len() > 0
    &&& forall|i: int| 0 <= i < s.len() ==> digit_of(#[trigger] s[i]) < radix
}

/// What the digits `s` are worth in base `radix`.
pub open spec fn value(s: Seq<char>, radix: nat) -> nat
    decreases s.len(),
{
    if s.len() == 0 {
        0
    } else {
        value(s.drop_last(), radix) * radix + digit_of(s.last())
    }
}

/// The digits of `n` in base `radix`, in lower case and without leading zeros.
pub open spec fn numeral(n: nat, radix: nat) -> Seq<char>
    decreases n,
{
    if n < radix || radix < 2 {
        seq![digit_char(n)]
    } else {
        proof {
            assert(n / radix < n) by (nonlinear_arith)
                requires
                    n >= radix,
                    radix >= 2,
            ;
        }
        numeral(n / radix, radix).push(digit_char(n % radix))
    }
}

/// The digits of `n` in base ten.
pub open spec fn decimal(n: nat) -> Seq<char> {
    numeral(n, 10)
}

/// The unsigned number that `s` writes down in base ten, with or without a plus
/// sign before its digits, where it is `max` or less.
pub open spec fn unsigned(s: Seq<char>, max: nat) -> Option<nat> {
    let digits = if s.len() > 0 && s[0] == '+' {
        s.skip(1)
    } else {
        s
    };
    if is_numeral(digits, 10) && value(digits, 10) <= max {
        Some(value(digits, 10))
    } else {
        None
    }
}

/// More digits never make a number smaller.
proof fn lemma_value_monotonic(s: Seq<char>, n: int, radix: nat)
    requires
        0 <= n <= s.len(),
        radix >= 1,
    ensures
        value(s.take(n), radix) <= value(s, radix),
    decreases s.len(),
{
    if n == s.len() {
        assert(s.take(n) =~= s);
    } else {
        lemma_value_monotonic(s.drop_last(), n, radix);
        assert(s.drop_last().take(n) =~= s.take(n));
        let v = value(s.drop_last(), radix);
        assert(v * radix >= v) by (nonlinear_arith)
            requires
                radix >= 1,
        ;
    }
}

/// The digits of a number are digits, and they are worth that number.
pub proof fn lemma_numeral_value(n: nat, radix: nat)
    requires
        2 <= radix <= 16,
    ensures
        is_numeral(numeral(n, radix), radix),
        value(numeral(n, radix), radix) == n,
    decreases n,
{
    if n < radix {
        let s = numeral(n, radix);
        assert(s.drop_last() =~= Seq::<char>::empty());
        assert(value(s.drop_last(), radix) * radix == 0) by (nonlinear_arith)
            requires
                value(s.drop_last(), radix) == 0,
        ;
    } else {
        assert(n / radix < n) by (nonlinear_arith)
            requires
                n >= radix,
                radix >= 2,
        ;
        lemma_numeral_value(n / radix, radix);
        let s = numeral(n, radix);
        assert(n % radix < radix) by (nonlinear_arith)
            requires
                radix >= 2,
        ;
        assert(s.drop_last() =~= numeral(n / radix, radix));
        lemma_fundamental_div_mod(n as int, radix as int);
        assert((n / radix) * radix == radix * (n / radix)) by (nonlinear_arith);
        assert forall|i: int| 0 <= i < s.len() implies digit_of(#[trigger] s[i]) < radix by {
            if i < s.len() - 1 {
                assert(s[i] == numeral(n / radix, radix)[i]);
            }
        }
    }
}

/// What a number's digits read as in base ten is that number.
pub proof fn lemma_decimal_reads_back(n: nat, max: nat)
    requires
        n <= max,
    ensures
        unsigned(decimal(n), max) == Some(n),
{
    lemma_numeral_value(n, 10);
    assert(digit_of(decimal(n)[0]) < 10);
}

pub(crate) fn digit_value(c: char) -> (d: u32)
    ensures
        d == digit_of(c),
        d <= 16,
{
    if '0' <= c && c <= '9' {
        c as u32 - '0' as u32
    } else if 'a' <= c && c <= 'f' {
        c as u32 - 'a' as u32 + 10
    } else if 'A' <= c && c <= 'F' {
        c as u32 - 'A' as u32 + 10
    } else {
        16
    }
}

/// What the digits `s` of base `radix` are worth; `None` where `s` is no run of
/// such digits or is worth more than `max`.
pub(crate) fn read_digits(s: &[char], radix: u32, max: u32) -> (r: Option<u32>)
    requires
        2 <= radix <= 16,
    ensures
        match r {
            Some(n) => is_numeral(s@, radix as nat) && n <= max && n == value(s@, radix as nat),
            None => !(is_numeral(s@, radix as nat) && value(s@, radix as nat) <= max),
        },
{
    if s.len() == 0 {
        return None;
    }
    let mut total: u64 = 0;
    let mut i: usize = 0;
    while i < s.len()
        invariant
            i <= s.len(),
            2 <= radix <= 16,
            total <= max,
            total == value(s@.take(i as int), radix as nat),
            forall|j: int| 0 <= j < i ==> digit_of(#[trigger] s@[j]) < radix,
        decreases s.len() - i,
    {
        let d: u32 = digit_value(s[i]);
        if d >= radix {
            return None;
        }
        assert(total * radix <= 0xffff_ffff * 16) by (nonlinear_arith)
            requires
                total <= 0xffff_ffff,
                radix <= 16,
        ;
        total = total * (radix as u64) + (d as u64);
        i += 1;
        assert(s@.take(i as int).drop_last() =~= s@.take(i - 1));
        if total > max as u64 {
            proof {
                lemma_value_monotonic(s@, i as int, radix as nat);
            }
            return None;
        }
    }
    assert(s@.take(s@.len() as int) =~= s@);
    Some(total as u32)
}

/// The unsigned number that `s` writes down in base ten.
pub(crate) fn read_unsigned(s: &[char], max: u32) -> (r: Option<u32>)
    ensures
        match r {
            Some(n) => n <= max && unsigned(s@, max as nat) == Some(n as nat),
            None => unsigned(s@, max as nat) is None,
        },
{
    if s.len() > 0 && s[0] == '+' {
        let digits = vstd::slice::slice_subrange(s, 1, s.len());
        assert(digits@ =~= s@.skip(1));
        read_digits(digits, 10, max)
    } else {
        read_digits(s, 10, max)
    }
}

/// Appends the digits of `n` in base `radix`.
pub(crate) fn push_numeral(out: &mut String, n: u64, radix: u64)
    requires
        2 <= radix <= 16,
    ensures
        final(out)@ == old(out)@ + numeral(n as nat, radix as nat),
    decreases n,
{
    if n < radix {
        out.push(digit(n));
        assert(out@ =~= old(out)@ + numeral(n as nat, radix as nat));
    } else {
        assert(n / radix < n) by (nonlinear_arith)
            requires
                n >= radix,
                radix >= 2,
        ;
        push_numeral(out, n / radix, radix);
        assert(n % radix < radix) by (nonlinear_arith)
            requires
                radix >= 2,
        ;
        out.push(digit(n % radix));
        assert(out@ =~= old(out)@ + numeral(n as nat, radix as nat));
    }
}

fn digit(d: u64) -> (c: char)
    requires
        d < 16,
    ensures
        c == digit_char(d as nat),
{
    let small: u8 = d as u8;
    if small < 10 {
        ('0' as u8 + small) as char
    } else {
        ('a' as u8 + (small - 10)) as char
    }
}

} // verus!
