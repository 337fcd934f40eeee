//! Decimal numerals.

use vstd::prelude::*;

use crate::text::chars_of;

verus! {

/// The character of the digit `d`.
pub open spec fn digit_char(d: int) -> char {
    ('0' as int + d) as char
}

/// The decimal numeral of `n`, without leading zeros.
pub open spec fn digits(n: nat) -> Seq<char>
    decreases n,
{
    if n < 10 {
        seq![digit_char(n as int)]
    } else {
        digits(n / 10).push(digit_char((n % 10) as int))
    }
}

/// The decimal numeral of `i`, with a minus sign where it is negative.
pub open spec fn decimal(i: int) -> Seq<char> {
    if i < 0 {
        seq!['-'] + digits((-i) as nat)
    } else {
        digits(i as nat)
    }
}

/// The character of the digit `d`.
pub fn digit(d: u8) -> (c: char)
    requires
        d < 10,
    ensures
        c == digit_char(d as int),
{
    (48u8 + d) as char
}

/// The decimal numeral of `n`.
pub fn u64_text(n: u64) -> (r: String)
    ensures
        r@ == digits(n as nat),
    decreases n,
{
    if n < 10 {
        let mut out = String::new();
        out.push(digit(n as u8));
        proof {
            assert(out@ =~= seq![digit_char(n as int)]);
        }
        out
    } else {
        let mut out = u64_text(n / 10);
        out.push(digit((n % 10) as u8));
        out
    }
}

/// The decimal numeral of `n`.
pub fn usize_text(n: usize) -> (r: String)
    ensures
        r@ == digits(n as nat),
{
    u64_text(n as u64)
}

/// The decimal numeral of `i`.
pub fn i64_text(i: i64) -> (r: String)
    ensures
        r@ == decimal(i as int),
{
    if i < 0 {
        let mut out = String::new();
        out.push('-');
        let magnitude: u64 = (-(i as i128)) as u64;
        let tail = u64_text(magnitude);
        out.append(tail.as_str());
        out
    } else {
        u64_text(i as u64)
    }
}

/// Whether `c` is an ASCII digit.
pub open spec fn is_digit(c: char) -> bool {
    '0' <= c <= '9'
}

/// The number that a sequence of digits stands for.
pub open spec fn digits_value(s: Seq<char>) -> nat
    decreases s.len(),
{
    if s.len() == 0 {
        0
    } else {
        digits_value(s.drop_last()) * 10 + (s.last() as int - '0' as int) as nat
    }
}

/// Whether `s` is one digit or more and nothing else.
pub open spec fn is_numeral(s: Seq<char>) -> bool {
    s.len() > 0 && forall|k: int| 0 <= k < s.len() ==> is_digit(#[trigger] s[k])
}

/// `s` without the plus sign that it may begin with.
pub open spec fn without_plus(s: Seq<char>) -> Seq<char> {
    if s.len() > 0 && s[0] == '+' {
        s.skip(1)
    } else {
        s
    }
}

/// The number that `s` writes as an unsigned numeral, with or without a plus
/// sign, if it writes one that is at most `max`.
pub open spec fn parsed_unsigned(s: Seq<char>, max: nat) -> Option<nat> {
    let body = without_plus(s);
    if is_numeral(body) && digits_value(body) <= max {
        Some(digits_value(body))
    } else {
        None
    }
}

/// The numeral of `n` is a numeral, and stands for `n`.
pub proof fn lemma_digits_value(n: nat)
    ensures
        is_numeral(digits(n)),
        digits_value(digits(n)) == n,
    decreases n,
{
    if n < 10 {
        let s = seq![digit_char(n as int)];
        assert(s.drop_last() =~= Seq::<char>::empty());
        assert(digits_value(s.drop_last()) == 0);
        assert(s.last() == digit_char(n as int));
    } else {
        lemma_digits_value(n / 10);
        let s = digits(n);
        assert(s.drop_last() =~= digits(n / 10));
        assert forall|k: int| 0 <= k < s.len() implies is_digit(#[trigger] s[k]) by {
            if k < s.len() - 1 {
                assert(digits(n / 10)[k] == s[k]);
            }
        }
    }
}

/// The number that `s` writes as an unsigned numeral, with or without a plus
/// sign, if it writes one that fits.
pub fn parse_usize(s: &str) -> (r: Option<usize>)
    ensures
        match r {
            Some(n) => parsed_unsigned(s@, usize::MAX as nat) == Some(n as nat),
            None => parsed_unsigned(s@, usize::MAX as nat) is None,
        },
{
    let v = chars_of(s);
    let start: usize = if v.len() > 0 && v[0] == '+' {
        1
    } else {
        0
    };
    let ghost body = without_plus(s@);
    proof {
        assert(body == v@.skip(start as int));
    }
    if v.len() == start {
        return None;
    }
    let mut n: usize = 0;
    let mut fits: bool = true;
    let mut i: usize = start;
    while i < v.len()
        invariant
            start <= i <= v.len(),
            body == v@.skip(start as int),
            body == without_plus(s@),
            forall|k: int| 0 <= k < i - start ==> is_digit(#[trigger] body[k]),
            fits ==> n == digits_value(body.take(i - start)),
            !fits ==> digits_value(body.take(i - start)) > usize::MAX,
        decreases v.len() - i,
    {
        let c = v[i];
        proof {
            assert(body[i - start] == c);
            assert(body.take(i + 1 - start).drop_last() == body.take(i - start));
            assert(body.take(i + 1 - start).last() == c);
        }
        if !('0' <= c && c <= '9') {
            proof {
                assert(!is_digit(body[i - start]));
            }
            return None;
        }
        let d: usize = (c as u32 - 48) as usize;
        if fits {
            if n > (usize::MAX - d) / 10 {
                fits = false;
                proof {
                    let m: int = usize::MAX as int;
                    assert(n * 10 + d > m) by (nonlinear_arith)
                        requires
                            n > (m - d) / 10,
                            0 <= d <= m,
                            m == usize::MAX,
                    ;
                }
            } else {
                n = n * 10 + d;
            }
        }
        i += 1;
    }
    proof {
        assert(body.take(i - start) == body);
    }
    if fits {
        Some(n)
    } else {
        None
    }
}

/// The number that `s` writes as a signed numeral, with or without a sign, if it
/// writes one from `min` to `max`.
pub open spec fn parsed_signed(s: Seq<char>, min: int, max: int) -> Option<int> {
    let negative = s.len() > 0 && s[0] == '-';
    let body = if negative {
        s.skip(1)
    } else {
        without_plus(s)
    };
    let value = if negative {
        -(digits_value(body) as int)
    } else {
        digits_value(body) as int
    };
    if is_numeral(body) && min <= value <= max {
        Some(value)
    } else {
        None
    }
}

/// The number that a run of digits writes, or nothing where it is not one, or
/// more than `cap`.
fn parse_digits(v: &Vec<char>, start: usize, cap: u64) -> (r: Option<u64>)
    requires
        start <= v.len(),
    ensures
        match r {
            Some(n) => is_numeral(v@.skip(start as int)) && n == digits_value(v@.skip(start as int))
                && n <= cap,
            None => !is_numeral(v@.skip(start as int)) || digits_value(v@.skip(start as int)) > cap,
        },
{
    let ghost body = v@.skip(start as int);
    if v.len() == start {
        return None;
    }
    let mut n: u128 = 0;
    let mut fits: bool = true;
    let mut i: usize = start;
    while i < v.len()
        invariant
            start <= i <= v.len(),
            body == v@.skip(start as int),
            forall|k: int| 0 <= k < i - start ==> is_digit(#[trigger] body[k]),
            fits ==> n == digits_value(body.take(i - start)) && n <= cap,
            !fits ==> digits_value(body.take(i - start)) > cap,
        decreases v.len() - i,
    {
        let c = v[i];
        proof {
            assert(body[i - start] == c);
            assert(body.take(i + 1 - start).drop_last() == body.take(i - start));
            assert(body.take(i + 1 - start).last() == c);
        }
        if !('0' <= c && c <= '9') {
            proof {
                assert(!is_digit(body[i - start]));
            }
            return None;
        }
        let d: u128 = (c as u32 - 48) as u128;
        if fits {
            n = n * 10 + d;
            if n > cap as u128 {
                fits = false;
            }
        }
        i += 1;
    }
    proof {
        assert(body.take(i - start) == body);
    }
    if fits {
        Some(n as u64)
    } else {
        None
    }
}

/// The number that `s` writes as a signed numeral, with or without a sign, if it
/// writes one that fits.
pub fn parse_i64(s: &str) -> (r: Option<i64>)
    ensures
        match r {
            Some(n) => parsed_signed(s@, i64::MIN as int, i64::MAX as int) == Some(n as int),
            None => parsed_signed(s@, i64::MIN as int, i64::MAX as int) is None,
        },
{
    let v = chars_of(s);
    if v.len() > 0 && v[0] == '-' {
        match parse_digits(&v, 1, 0x8000_0000_0000_0000) {
            Some(n) => Some((-(n as i128)) as i64),
            None => None,
        }
    } else {
        let start: usize = if v.len() > 0 && v[0] == '+' {
            1
        } else {
            0
        };
        proof {
            assert(without_plus(s@) == v@.skip(start as int));
        }
        match parse_digits(&v, start, 0x7fff_ffff_ffff_ffff) {
            Some(n) => Some(n as i64),
            None => None,
        }
    }
}

/// What the numeral of a number writes is that number.
pub proof fn law_signed_numeral_reads_back(i: int, min: int, max: int)
    requires
        min <= i <= max,
    ensures
        parsed_signed(decimal(i), min, max) == Some(i),
{
    if i < 0 {
        lemma_digits_value((-i) as nat);
        assert(decimal(i).skip(1) =~= digits((-i) as nat));
    } else {
        lemma_digits_value(i as nat);
        assert(is_digit(digits(i as nat)[0]));
        assert(without_plus(digits(i as nat)) == digits(i as nat));
    }
}

/// What the numeral of a number writes is that number.
pub proof fn law_unsigned_numeral_reads_back(n: nat, max: nat)
    requires
        n <= max,
    ensures
        parsed_unsigned(digits(n), max) == Some(n),
{
    lemma_digits_value(n);
    assert(is_digit(digits(n)[0]));
    assert(without_plus(digits(n)) == digits(n));
}

/// A text is read as a number if and only if it is made of digits, with a plus sign before
/// them or not, and the number is not too large.
pub proof fn law_only_numerals_are_read(s: Seq<char>, max: nat, k: int)
    ensures
        s.len() == 0 ==> parsed_unsigned(s, max) is None,
        0 < k < s.len() && !('0' <= s[k] <= '9') ==> parsed_unsigned(s, max) is None,
        s.len() > 0 && !('0' <= s[0] <= '9') && s[0] != '+' ==> parsed_unsigned(s, max) is None,
        parsed_unsigned(s, max) matches Some(n) ==> n <= max,
        s.len() > 0 && '0' <= s[0] <= '9' ==> parsed_unsigned(seq!['+'] + s, max)
            == parsed_unsigned(s, max),
{
    let body = without_plus(s);
    if 0 < k < s.len() && !('0' <= s[k] <= '9') {
        if s[0] == '+' {
            assert(body[k - 1] == s[k]);
            assert(!is_digit(body[k - 1]));
        } else {
            assert(!is_digit(body[k]));
        }
    }
    if s.len() > 0 && !('0' <= s[0] <= '9') && s[0] != '+' {
        assert(!is_digit(body[0]));
    }
    if s.len() > 0 && '0' <= s[0] <= '9' {
        assert((seq!['+'] + s).skip(1) =~= s);
    }
}

/// A digit behind a numeral makes it ten times as large and adds the digit.
pub proof fn law_digits_have_places(s: Seq<char>, d: nat, max: nat)
    requires
        parsed_unsigned(s, max) is Some,
        s[0] != '+',
        d < 10,
        parsed_unsigned(s, max)->0 * 10 + d <= max,
    ensures
        parsed_unsigned(s.push(('0' as int + d) as char), max) == Some(
            (parsed_unsigned(s, max)->0 * 10 + d) as nat,
        ),
{
    let c = ('0' as int + d) as char;
    let longer = s.push(c);
    assert(longer.drop_last() =~= s);
    assert(longer[0] == s[0]);
    assert(is_digit(c));
    assert forall|k: int| 0 <= k < longer.len() implies is_digit(#[trigger] longer[k]) by {
        if k < s.len() {
            assert(longer[k] == s[k]);
        }
    }
}

} // verus!
