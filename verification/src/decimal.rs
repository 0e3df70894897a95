//! Decimal numbers as text.

use vstd::prelude::*;
use vstd::string::StringExecFns;
use vstd::string::StrSliceExecFns;

verus! {

/// The character of the digit `d`.
pub open spec fn digit_char(d: nat) -> char {
    ('0' as nat + d) as char
}

/// The decimal digits of `n`, most significant first, without leading zeros.
pub open spec fn decimal(n: nat) -> Seq<char>
    decreases n,
{
    if n < 10 {
        seq![digit_char(n)]
    } else {
        decimal(n / 10).push(digit_char(n % 10))
    }
}

/// The value of the digit that `c` writes, if it is one.
pub open spec fn digit_value(c: char) -> Option<nat> {
    if '0' <= c && c <= '9' {
        Some((c as nat - '0' as nat) as nat)
    } else {
        None
    }
}

/// The number that `s` writes: one or more decimal digits, leading zeros allowed.
pub open spec fn digits_value(s: Seq<char>) -> Option<nat>
    decreases s.len(),
{
    if s.len() == 0 {
        None
    } else {
        match digit_value(s.last()) {
            None => None,
            Some(d) => if s.len() == 1 {
                Some(d)
            } else {
                match digits_value(s.drop_last()) {
                    None => None,
                    Some(v) => Some(v * 10 + d),
                }
            },
        }
    }
}

/// The 64-bit number that `s` writes: digits, after one optional `+`.
pub open spec fn parsed_u64(s: Seq<char>) -> Option<u64> {
    let digits = if s.len() > 0 && s[0] == '+' { s.skip(1) } else { s };
    match digits_value(digits) {
        Some(v) => if v <= u64::MAX { Some(v as u64) } else { None },
        None => None,
    }
}

fn digit_text(d: u64) -> (r: &'static str)
    requires
        d < 10,
    ensures
        r@ == seq![digit_char(d as nat)],
{
    proof {
        reveal_strlit("0");
        reveal_strlit("1");
        reveal_strlit("2");
        reveal_strlit("3");
        reveal_strlit("4");
        reveal_strlit("5");
        reveal_strlit("6");
        reveal_strlit("7");
        reveal_strlit("8");
        reveal_strlit("9");
    }
    let r = match d {
        0 => "0",
        1 => "1",
        2 => "2",
        3 => "3",
        4 => "4",
        5 => "5",
        6 => "6",
        7 => "7",
        8 => "8",
        _ => "9",
    };
    assert(r@ =~= seq![digit_char(d as nat)]);
    r
}

/// Appends the decimal digits of `n`.
pub fn write_decimal(out: &mut String, n: u64)
    ensures
        final(out)@ == old(out)@ + decimal(n as nat),
    decreases n,
{
    if n >= 10 {
        write_decimal(out, n / 10);
    }
    out.append(digit_text(n % 10));
    assert(out@ =~= old(out)@ + decimal(n as nat));
}

proof fn lemma_digits_value_grows(s: Seq<char>, n: int)
    requires
        0 < n <= s.len(),
        digits_value(s.take(n)) is None || digits_value(s.take(n))->0 > u64::MAX,
    ensures
        digits_value(s) is None || digits_value(s)->0 > u64::MAX,
    decreases s.len(),
{
    if n == s.len() {
        assert(s.take(n) =~= s);
    } else {
        assert(s.drop_last().take(n) =~= s.take(n));
        lemma_digits_value_grows(s.drop_last(), n);
    }
}

/// Parses `s` from the character at `from` on as decimal digits.
fn parse_digits(s: &str, from: usize, to: usize) -> (r: Option<u64>)
    requires
        from <= to <= s@.len(),
    ensures
        r == (match digits_value(s@.subrange(from as int, to as int)) {
            Some(v) => if v <= u64::MAX { Some(v as u64) } else { None },
            None => None,
        }),
{
    if from == to {
        return None;
    }
    let ghost whole = s@.subrange(from as int, to as int);
    let mut v: u64 = 0;
    let mut i: usize = from;
    while i < to
        invariant
            from <= i <= to <= s@.len(),
            from < to,
            whole == s@.subrange(from as int, to as int),
            i == from ==> v == 0,
            i > from ==> digits_value(whole.take(i - from)) == Some(v as nat),
        decreases to - i,
    {
        let c: char = s.get_char(i);
        let ghost next = whole.take(i - from + 1);
        assert(next.drop_last() =~= whole.take(i - from));
        assert(next.last() == c);
        if !('0' <= c && c <= '9') {
            proof {
                lemma_digits_value_grows(whole, i - from + 1);
            }
            return None;
        }
        let d: u64 = (c as u64) - ('0' as u64);
        if v > (u64::MAX - d) / 10 {
            proof {
                assert(v * 10 + d > u64::MAX);
                lemma_digits_value_grows(whole, i - from + 1);
            }
            return None;
        }
        v = v * 10 + d;
        i = i + 1;
    }
    assert(whole.take(to - from) =~= whole);
    Some(v)
}

/// Parses the characters of `s` from `from` to `to` as a 64-bit number: digits, after one
/// optional `+`.
pub fn parse_u64(s: &str, from: usize, to: usize) -> (r: Option<u64>)
    requires
        from <= to <= s@.len(),
    ensures
        r == parsed_u64(s@.subrange(from as int, to as int)),
{
    let ghost whole = s@.subrange(from as int, to as int);
    if from < to && s.get_char(from) == '+' {
        assert(whole.skip(1) =~= s@.subrange(from + 1, to as int));
        parse_digits(s, from + 1, to)
    } else {
        parse_digits(s, from, to)
    }
}

proof fn lemma_decimal_value(n: nat)
    ensures
        decimal(n).len() > 0,
        digits_value(decimal(n)) == Some(n),
        digit_value(decimal(n)[0]) is Some,
    decreases n,
{
    if n >= 10 {
        lemma_decimal_value(n / 10);
        assert(decimal(n).drop_last() =~= decimal(n / 10));
    } else {
        assert(decimal(n).last() == digit_char(n));
    }
}

/// A number has at least one digit.
pub proof fn lemma_decimal_len(n: nat)
    ensures
        decimal(n).len() >= 1,
{
    lemma_decimal_value(n);
}

/// Parsing the digits of a number gives the number back.
pub proof fn lemma_decimal_round_trip(n: u64)
    ensures
        parsed_u64(decimal(n as nat)) == Some(n),
{
    lemma_decimal_value(n as nat);
}

/// Numbers are written and read to the base ten: the last digit is the remainder, what stands
/// before it is the quotient. A plus sign may stand in front; anything but digits is no number, and
/// neither is one that does not fit.
pub proof fn law_numbers_are_decimal(n: nat, s: Seq<char>, c: char)
    ensures
        n < 10 ==> decimal(n) == seq![('0' as nat + n) as char],
        n >= 10 ==> decimal(n) == decimal(n / 10).push(('0' as nat + n % 10) as char),
        '0' <= c <= '9' ==> digits_value(s.push(c)) == (if s.len() == 0 {
            Some((c as nat - '0' as nat) as nat)
        } else {
            match digits_value(s) {
                Some(v) => Some((v * 10 + (c as nat - '0' as nat)) as nat),
                None => None,
            }
        }),
        !('0' <= c <= '9') ==> digits_value(s.push(c)) is None,
        digits_value(Seq::empty()) is None,
        parsed_u64(seq!['+'] + s) == (match digits_value(s) {
            Some(v) => if v <= u64::MAX {
                Some(v as u64)
            } else {
                None
            },
            None => None,
        }),
        s.len() > 0 && s[0] != '+' ==> parsed_u64(s) == (match digits_value(s) {
            Some(v) => if v <= u64::MAX {
                Some(v as u64)
            } else {
                None
            },
            None => None,
        }),
{
    assert(s.push(c).drop_last() =~= s);
    assert((seq!['+'] + s).skip(1) =~= s);
}

} // verus!
