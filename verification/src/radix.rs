use vstd::prelude::*;

verus! {

/// Why a run of digits is not a number of the width asked for.
#[derive(Clone, Copy, Debug, PartialEq, Eq, Structural)]
pub enum IntErrorKind {
    /// There was no text at all.
    Empty,
    /// A character is not a digit of the radix, or the text is a lone sign.
    InvalidDigit,
    /// The number does not fit the width.
    PosOverflow,
}

/// The value of `c` as a digit: `0` to `9`, then the letters of either case
/// from 10 on.
pub open spec fn digit_value(c: char) -> Option<nat> {
    if '0' <= c <= '9' {
        Some((c as u32 - '0' as u32) as nat)
    } else if 'a' <= c <= 'z' {
        Some((c as u32 - 'a' as u32 + 10) as nat)
    } else if 'A' <= c <= 'Z' {
        Some((c as u32 - 'A' as u32 + 10) as nat)
    } else {
        None
    }
}

/// The number that the digits `s` spell in `radix`, read from the left, with
/// `max` the largest number of the width. The first character that is not a
/// digit of the radix, or that takes the number beyond `max`, decides the
/// error. No digits at all spell 0.
pub open spec fn digits_value(s: Seq<char>, radix: nat, max: nat) -> Result<nat, IntErrorKind>
    decreases s.len(),
{
    if s.len() == 0 {
        Ok(0)
    } else {
        match digits_value(s.drop_last(), radix, max) {
            Err(kind) => Err(kind),
            Ok(value) => match digit_value(s.last()) {
                Some(d) if d < radix => if value * radix + d > max {
                    Err(IntErrorKind::PosOverflow)
                } else {
                    Ok(value * radix + d)
                },
                _ => Err(IntErrorKind::InvalidDigit),
            },
        }
    }
}

/// The unsigned number that `s` spells in `radix`: one optional `+`, then at
/// least one digit, and nothing else.
pub open spec fn unsigned_value(s: Seq<char>, radix: nat, max: nat) -> Result<nat, IntErrorKind> {
    if s.len() == 0 {
        Err(IntErrorKind::Empty)
    } else if s.len() == 1 && (s[0] == '+' || s[0] == '-') {
        Err(IntErrorKind::InvalidDigit)
    } else if s[0] == '+' {
        digits_value(s.drop_first(), radix, max)
    } else {
        digits_value(s, radix, max)
    }
}

/// The value of `c` as a digit of `radix`, if it is one.
pub fn to_digit(c: char, radix: u32) -> (d: Option<u32>)
    requires
        2 <= radix <= 36,
    ensures
        match d {
            Some(d) => digit_value(c) == Some(d as nat) && d < radix,
            None => match digit_value(c) {
                Some(v) => v >= radix,
                None => true,
            },
        },
{
    let value: u32 = if '0' <= c && c <= '9' {
        c as u32 - '0' as u32
    } else if 'a' <= c && c <= 'z' {
        c as u32 - 'a' as u32 + 10
    } else if 'A' <= c && c <= 'Z' {
        c as u32 - 'A' as u32 + 10
    } else {
        return None;
    };
    if value < radix {
        Some(value)
    } else {
        None
    }
}

/// Reads `s` as an unsigned number in `radix` that is at most `max`.
pub fn parse_unsigned(s: &Vec<char>, radix: u32, max: u32) -> (r: Result<u32, IntErrorKind>)
    requires
        2 <= radix <= 36,
    ensures
        match r {
            Ok(n) => unsigned_value(s@, radix as nat, max as nat) == Ok::<nat, IntErrorKind>(
                n as nat,
            ) && n <= max,
            Err(kind) => unsigned_value(s@, radix as nat, max as nat) == Err::<nat, IntErrorKind>(
                kind,
            ),
        },
{
    let n = s.len();
    if n == 0 {
        return Err(IntErrorKind::Empty);
    }
    if n == 1 && (s[0] == '+' || s[0] == '-') {
        return Err(IntErrorKind::InvalidDigit);
    }
    let start: usize = if s[0] == '+' { 1 } else { 0 };
    let ghost digits = s@.subrange(start as int, n as int);
    proof {
        if start == 1 {
            assert(digits == s@.drop_first());
        } else {
            assert(digits == s@);
        }
        assert(digits.subrange(0, 0) == Seq::<char>::empty());
    }
    let mut value: u32 = 0;
    let mut i: usize = start;
    while i < n
        invariant
            start <= i <= n,
            n == s@.len(),
            2 <= radix <= 36,
            digits == s@.subrange(start as int, n as int),
            unsigned_value(s@, radix as nat, max as nat) == digits_value(
                digits,
                radix as nat,
                max as nat,
            ),
            value <= max,
            digits_value(digits.subrange(0, i - start), radix as nat, max as nat) == Ok::<
                nat,
                IntErrorKind,
            >(value as nat),
        decreases n - i,
    {
        let ghost upto = digits.subrange(0, i - start + 1);
        proof {
            assert(upto.drop_last() == digits.subrange(0, i - start));
            assert(upto.last() == s@[i as int]);
        }
        match to_digit(s[i], radix) {
            None => {
                proof {
                    lemma_error_stays(digits, i - start + 1, radix as nat, max as nat);
                }
                return Err(IntErrorKind::InvalidDigit);
            },
            Some(d) => {
                assert(value as u64 * radix as u64 <= 36 * u32::MAX) by (nonlinear_arith)
                    requires
                        value <= u32::MAX,
                        radix <= 36,
                ;
                let wide: u64 = value as u64 * radix as u64 + d as u64;
                if wide > max as u64 {
                    proof {
                        lemma_error_stays(digits, i - start + 1, radix as nat, max as nat);
                    }
                    return Err(IntErrorKind::PosOverflow);
                }
                value = wide as u32;
            },
        }
        i += 1;
    }
    proof {
        assert(digits.subrange(0, n - start) == digits);
    }
    Ok(value)
}

/// Once a prefix of the digits has failed, the whole fails in the same way.
proof fn lemma_error_stays(s: Seq<char>, k: int, radix: nat, max: nat)
    requires
        0 <= k <= s.len(),
        digits_value(s.subrange(0, k), radix, max) is Err,
    ensures
        digits_value(s, radix, max) == digits_value(s.subrange(0, k), radix, max),
    decreases s.len() - k,
{
    if k < s.len() {
        let longer = s.subrange(0, k + 1);
        assert(longer.drop_last() == s.subrange(0, k));
        lemma_error_stays(s, k + 1, radix, max);
    } else {
        assert(s.subrange(0, k) == s);
    }
}

} // verus!
