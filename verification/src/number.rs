//! Reading and writing decimal numbers.

use vstd::prelude::*;
use crate::text::chars_of;

verus! {

/// `c` is one of the ten decimal digits.
pub open spec fn is_digit(c: char) -> bool {
    '0' <= c <= '9'
}

/// `s` is a nonempty sequence of decimal digits.
pub open spec fn all_digits(s: Seq<char>) -> bool {
    s.len() > 0 && forall|i: int| 0 <= i < s.len() ==> is_digit(#[trigger] s[i])
}

/// The number that the digits `s` write.
pub open spec fn digits_value(s: Seq<char>) -> nat
    decreases s.len(),
{
    if s.len() == 0 {
        0
    } else {
        digits_value(s.drop_last()) * 10 + (s.last() as nat - '0' as nat) as nat
    }
}

/// The number no greater than `max` that `s` writes, with or without a leading
/// plus sign.
pub open spec fn parse_unsigned(s: Seq<char>, max: nat) -> Option<nat> {
    let d = if s.len() > 0 && s[0] == '+' {
        s.skip(1)
    } else {
        s
    };
    if all_digits(d) && digits_value(d) <= max {
        Some(digits_value(d))
    } else {
        None
    }
}

/// The `isize` that `s` writes, with or without a leading sign.
pub open spec fn parse_signed(s: Seq<char>) -> Option<int> {
    let minus = s.len() > 0 && s[0] == '-';
    let signed = minus || (s.len() > 0 && s[0] == '+');
    let d = if signed {
        s.skip(1)
    } else {
        s
    };
    let v = if minus {
        -(digits_value(d) as int)
    } else {
        digits_value(d) as int
    };
    if all_digits(d) && isize::MIN <= v <= isize::MAX {
        Some(v)
    } else {
        None
    }
}

proof fn lemma_digits_value_prefix(s: Seq<char>, n: int)
    requires
        0 <= n <= s.len(),
        forall|i: int| 0 <= i < s.len() ==> is_digit(#[trigger] s[i]),
    ensures
        digits_value(s.take(n)) <= digits_value(s),
    decreases s.len() - n,
{
    if n == s.len() {
        assert(s.take(n) =~= s);
    } else {
        lemma_digits_value_prefix(s, n + 1);
        assert(s.take(n + 1).drop_last() =~= s.take(n));
    }
}

/// The number that the digits `cs`, from `from` on, write, where it fits.
fn digits(cs: &Vec<char>, from: usize) -> (r: Option<u64>)
    requires
        from <= cs@.len(),
    ensures
        match r {
            Some(n) => all_digits(cs@.skip(from as int)) && digits_value(cs@.skip(from as int))
                == n,
            None => !all_digits(cs@.skip(from as int)) || digits_value(cs@.skip(from as int))
                > u64::MAX,
        },
{
    let ghost d = cs@.skip(from as int);
    if from == cs.len() {
        return None;
    }
    let mut n: u64 = 0;
    let mut i: usize = from;
    while i < cs.len()
        invariant
            from <= i <= cs@.len(),
            d == cs@.skip(from as int),
            forall|j: int| 0 <= j < i - from ==> is_digit(#[trigger] d[j]),
            n == digits_value(d.take(i - from)),
        decreases cs@.len() - i,
    {
        let c = cs[i];
        assert(d[i - from] == c);
        if c < '0' || '9' < c {
            return None;
        }
        let v: u64 = c as u64 - '0' as u64;
        proof {
            assert(d.take(i - from + 1).drop_last() =~= d.take(i - from));
            if all_digits(d) {
                lemma_digits_value_prefix(d, i - from + 1);
            }
        }
        match n.checked_mul(10) {
            None => {
                return None;
            },
            Some(m) => match m.checked_add(v) {
                None => {
                    return None;
                },
                Some(k) => {
                    n = k;
                },
            },
        }
        i += 1;
    }
    assert(d.take(cs@.len() - from) =~= d);
    Some(n)
}

/// The `u64` that `s` writes.
pub fn parse_u64(s: &str) -> (r: Option<u64>)
    ensures
        match r {
            Some(n) => parse_unsigned(s@, u64::MAX as nat) == Some(n as nat),
            None => parse_unsigned(s@, u64::MAX as nat) is None,
        },
{
    let cs = chars_of(s);
    assert(cs@.skip(0) =~= cs@);
    let from: usize = if cs.len() > 0 && cs[0] == '+' {
        1
    } else {
        0
    };
    digits(&cs, from)
}

/// The `usize` that `s` writes.
pub fn parse_usize(s: &str) -> (r: Option<usize>)
    ensures
        match r {
            Some(n) => parse_unsigned(s@, usize::MAX as nat) == Some(n as nat),
            None => parse_unsigned(s@, usize::MAX as nat) is None,
        },
{
    match parse_u64(s) {
        Some(n) => if n <= usize::MAX as u64 {
            Some(n as usize)
        } else {
            None
        },
        None => None,
    }
}

/// The `isize` that `s` writes.
pub fn parse_isize(s: &str) -> (r: Option<isize>)
    ensures
        match r {
            Some(n) => parse_signed(s@) == Some(n as int),
            None => parse_signed(s@) is None,
        },
{
    let cs = chars_of(s);
    assert(cs@.skip(0) =~= cs@);
    let minus = cs.len() > 0 && cs[0] == '-';
    let signed = minus || (cs.len() > 0 && cs[0] == '+');
    let from: usize = if signed {
        1
    } else {
        0
    };
    match digits(&cs, from) {
        None => None,
        Some(n) => {
            if minus {
                if n <= isize::MAX as u64 {
                    Some(-(n as isize))
                } else if n == isize::MAX as u64 + 1 {
                    Some(isize::MIN)
                } else {
                    None
                }
            } else if n <= isize::MAX as u64 {
                Some(n as isize)
            } else {
                None
            }
        },
    }
}

/// The decimal digit for `n`.
pub open spec fn digit_char(n: nat) -> char {
    (n + '0' as nat) as char
}

/// `n` written in decimal.
pub open spec fn decimal(n: nat) -> Seq<char>
    decreases n,
{
    if n < 10 {
        seq![digit_char(n)]
    } else {
        decimal(n / 10).push(digit_char(n % 10))
    }
}

/// A number written in decimal reads back as itself.
pub proof fn lemma_decimal_reads_back(n: nat)
    ensures
        all_digits(decimal(n)),
        digits_value(decimal(n)) == n,
    decreases n,
{
    assert(is_digit(digit_char(n % 10)));
    if n < 10 {
        assert(decimal(n).drop_last() =~= Seq::<char>::empty());
        assert(digits_value(decimal(n).drop_last()) == 0);
    } else {
        lemma_decimal_reads_back(n / 10);
        assert(decimal(n).drop_last() =~= decimal(n / 10));
    }
}

/// Appends `n` in decimal to `out`.
pub fn push_decimal(out: &mut String, n: u64)
    ensures
        final(out)@ == old(out)@ + decimal(n as nat),
    decreases n,
{
    if n >= 10 {
        push_decimal(out, n / 10);
    }
    let d = (n % 10) as u8;
    let c = ('0' as u8 + d) as char;
    out.push(c);
    assert(old(out)@ + decimal(n as nat) =~= out@);
}

/// `n` written in decimal, with a minus sign where it is negative.
pub open spec fn signed_decimal(n: int) -> Seq<char> {
    if n < 0 {
        "-"@ + decimal((-n) as nat)
    } else {
        decimal(n as nat)
    }
}

/// Appends `n` in decimal to `out`.
pub fn push_signed_decimal(out: &mut String, n: i64)
    ensures
        final(out)@ == old(out)@ + signed_decimal(n as int),
{
    if n >= 0 {
        push_decimal(out, n as u64);
    } else {
        let ghost before = out@;
        out.append("-");
        if n == i64::MIN {
            push_decimal(out, 9223372036854775808);
        } else {
            push_decimal(out, (-n) as u64);
        }
        assert(out@ =~= before + signed_decimal(n as int));
    }
}

// ---------------------------------------------------------------------------
// Laws
// ---------------------------------------------------------------------------

/// Digits are read from the left, each worth ten times what the next is worth.
pub proof fn lemma_digits_value(d: Seq<char>, c: char)
    requires
        is_digit(c),
    ensures
        digits_value(Seq::empty()) == 0,
        digits_value(d.push(c)) == 10 * digits_value(d) + (c as nat - 48),
        is_digit(c) <==> 48 <= c as nat <= 57,
{
    assert(d.push(c).drop_last() =~= d);
}

/// A number is written without a zero at its beginning, but for zero itself.
pub proof fn lemma_no_leading_zero(n: nat)
    ensures
        decimal(n).len() > 0,
        n > 0 ==> decimal(n)[0] != '0',
        decimal(0) == seq!['0'],
        signed_decimal(n as int) == decimal(n),
        n > 0 ==> signed_decimal(-(n as int)) == seq!['-'] + decimal(n),
    decreases n,
{
    reveal_strlit("-");
    assert("-"@ =~= seq!['-']);
    if n >= 10 {
        lemma_no_leading_zero(n / 10);
        assert(decimal(n)[0] == decimal(n / 10)[0]);
    }
}

/// What reads as a number: digits, with or without a sign before them, where the
/// number is not too large; and nothing else.
pub proof fn lemma_parse(d: Seq<char>, max: nat)
    ensures
        all_digits(d) && digits_value(d) <= max ==> parse_unsigned(d, max) == Some(digits_value(d)),
        all_digits(d) && digits_value(d) <= max ==> parse_unsigned(seq!['+'] + d, max) == Some(
            digits_value(d),
        ),
        all_digits(d) && digits_value(d) > max ==> parse_unsigned(d, max) is None,
        all_digits(d) && digits_value(d) <= isize::MAX ==> parse_signed(d) == Some(
            digits_value(d) as int,
        ),
        all_digits(d) && digits_value(d) <= isize::MAX + 1 ==> parse_signed(seq!['-'] + d) == Some(
            -(digits_value(d) as int),
        ),
        all_digits(d) && digits_value(d) <= isize::MAX ==> parse_signed(seq!['+'] + d) == Some(
            digits_value(d) as int,
        ),
        parse_unsigned(Seq::empty(), max) is None,
        parse_signed(Seq::empty()) is None,
        parse_unsigned(seq!['-'] + d, max) is None,
        !all_digits(d) && (d.len() == 0 || (d[0] != '+' && d[0] != '-')) ==> parse_unsigned(d, max)
            is None && parse_signed(d) is None,
{
    let plus = seq!['+'] + d;
    let minus = seq!['-'] + d;
    assert(plus.skip(1) =~= d);
    assert(minus.skip(1) =~= d);
    assert(plus[0] == '+' && minus[0] == '-');
    if all_digits(d) {
        assert(is_digit(d[0]));
    }
    assert(!is_digit(minus[0]));
}

} // verus!
