use vstd::prelude::*;

verus! {

/// The kinds of characters that a token is made of.
#[derive(Debug, Clone, Copy, PartialEq, Eq, Structural)]
pub enum Class {
    /// `0` to `9`.
    Digit,
    /// A digit, or a letter from `a` to `f` in either case.
    HexDigit,
    /// `0` or `1`.
    BinaryDigit,
    /// A letter from `a` to `z` in either case.
    Letter,
}

impl Class {
    /// Whether `c` is of this kind.
    pub open spec fn holds(self, c: char) -> bool {
        match self {
            Class::Digit => '0' <= c <= '9',
            Class::HexDigit => '0' <= c <= '9' || 'a' <= c <= 'f' || 'A' <= c <= 'F',
            Class::BinaryDigit => c == '0' || c == '1',
            Class::Letter => 'a' <= c <= 'z' || 'A' <= c <= 'Z',
        }
    }

    /// Whether `c` is of this kind.
    pub fn has(self, c: char) -> (r: bool)
        ensures
            r == self.holds(c),
    {
        match self {
            Class::Digit => '0' <= c && c <= '9',
            Class::HexDigit => ('0' <= c && c <= '9') || ('a' <= c && c <= 'f') || ('A' <= c && c
                <= 'F'),
            Class::BinaryDigit => c == '0' || c == '1',
            Class::Letter => ('a' <= c && c <= 'z') || ('A' <= c && c <= 'Z'),
        }
    }
}

/// Whether `c` is one of the six glyphs `(`, `)`, `+`, `*`, `-` and `=`.
pub open spec fn is_glyph(c: char) -> bool {
    c == '(' || c == ')' || c == '+' || c == '*' || c == '-' || c == '='
}

/// How many characters of the kind `class` follow one another in `s` from
/// `from` on.
pub open spec fn run_len(s: Seq<char>, from: int, class: Class) -> nat
    decreases s.len() - from,
{
    if 0 <= from < s.len() && class.holds(s[from]) {
        1 + run_len(s, from + 1, class)
    } else {
        0
    }
}

/// The length of the width suffix at `at`: `i` or `u` and then one digit or
/// two; 0 where none stands there.
pub open spec fn suffix_len(s: Seq<char>, at: int) -> nat {
    if 0 <= at && at + 1 < s.len() && (s[at] == 'i' || s[at] == 'u') && Class::Digit.holds(
        s[at + 1],
    ) {
        if at + 2 < s.len() && Class::Digit.holds(s[at + 2]) {
            3
        } else {
            2
        }
    } else {
        0
    }
}

/// The length of the radix literal at `at`: `0`, then `mark` in either case,
/// then as many digits of `class` as follow, then a width suffix if one
/// follows; 0 where `s` does not go on with `0` and `mark`.
pub open spec fn radix_len(
    s: Seq<char>,
    at: int,
    mark: char,
    mark_upper: char,
    class: Class,
) -> nat {
    if 0 <= at && at + 1 < s.len() && s[at] == '0' && (s[at + 1] == mark || s[at + 1]
        == mark_upper) {
        let digits = run_len(s, at + 2, class);
        2 + digits + suffix_len(s, at + 2 + digits)
    } else {
        0
    }
}

/// The length of the decimal number at `at`: `-` or nothing, then digits,
/// then, if a `.` or a `,` and at least one digit follow, that mark and the
/// digits after it; 0 where no digit stands at the head.
pub open spec fn decimal_len(s: Seq<char>, at: int) -> nat {
    let sign: nat = if 0 <= at < s.len() && s[at] == '-' {
        1
    } else {
        0
    };
    let whole = run_len(s, at + sign, Class::Digit);
    let mark = at + sign + whole;
    if whole == 0 {
        0
    } else if mark < s.len() && (s[mark] == '.' || s[mark] == ',') && run_len(
        s,
        mark + 1,
        Class::Digit,
    ) > 0 {
        sign + whole + 1 + run_len(s, mark + 1, Class::Digit)
    } else {
        sign + whole
    }
}

/// The length of the token that begins at `at`, 0 where none does. The first
/// of these that is found there decides: a hexadecimal literal, a binary
/// literal, a decimal number, one of the six glyphs, a run of letters.
pub open spec fn match_len(s: Seq<char>, at: int) -> nat {
    if radix_len(s, at, 'x', 'X', Class::HexDigit) > 0 {
        radix_len(s, at, 'x', 'X', Class::HexDigit)
    } else if radix_len(s, at, 'b', 'B', Class::BinaryDigit) > 0 {
        radix_len(s, at, 'b', 'B', Class::BinaryDigit)
    } else if decimal_len(s, at) > 0 {
        decimal_len(s, at)
    } else if 0 <= at < s.len() && is_glyph(s[at]) {
        1
    } else {
        run_len(s, at, Class::Letter)
    }
}

/// Counts the characters of the kind `class` that follow one another from
/// `from` on.
fn scan_run(chars: &Vec<char>, from: usize, class: Class) -> (n: usize)
    requires
        from <= chars@.len(),
    ensures
        n == run_len(chars@, from as int, class),
        from + n <= chars@.len(),
{
    let mut end: usize = from;
    while end < chars.len() && class.has(chars[end])
        invariant
            from <= end <= chars@.len(),
            run_len(chars@, from as int, class) == (end - from) + run_len(
                chars@,
                end as int,
                class,
            ),
        decreases chars@.len() - end,
    {
        end += 1;
    }
    end - from
}

/// Measures the width suffix at `at`.
fn scan_suffix(chars: &Vec<char>, at: usize) -> (n: usize)
    requires
        at <= chars@.len(),
    ensures
        n == suffix_len(chars@, at as int),
        at + n <= chars@.len(),
{
    let len = chars.len();
    if len - at >= 2 && (chars[at] == 'i' || chars[at] == 'u') && Class::Digit.has(chars[at + 1]) {
        if len - at >= 3 && Class::Digit.has(chars[at + 2]) {
            3
        } else {
            2
        }
    } else {
        0
    }
}

/// Measures the radix literal at `at`.
fn scan_radix(chars: &Vec<char>, at: usize, mark: char, mark_upper: char, class: Class) -> (n:
    usize)
    requires
        at <= chars@.len(),
    ensures
        n == radix_len(chars@, at as int, mark, mark_upper, class),
        at + n <= chars@.len(),
{
    let len = chars.len();
    if len - at >= 2 && chars[at] == '0' && (chars[at + 1] == mark || chars[at + 1]
        == mark_upper) {
        let digits = scan_run(chars, at + 2, class);
        let suffix = scan_suffix(chars, at + 2 + digits);
        2 + digits + suffix
    } else {
        0
    }
}

/// Measures the decimal number at `at`.
fn scan_decimal(chars: &Vec<char>, at: usize) -> (n: usize)
    requires
        at <= chars@.len(),
    ensures
        n == decimal_len(chars@, at as int),
        at + n <= chars@.len(),
{
    let len = chars.len();
    let sign: usize = if at < len && chars[at] == '-' {
        1
    } else {
        0
    };
    let whole = scan_run(chars, at + sign, Class::Digit);
    if whole == 0 {
        return 0;
    }
    let mark = at + sign + whole;
    if mark < len && (chars[mark] == '.' || chars[mark] == ',') {
        let fraction = scan_run(chars, mark + 1, Class::Digit);
        if fraction > 0 {
            return sign + whole + 1 + fraction;
        }
    }
    sign + whole
}

/// Measures the token that begins at `at`; 0 where none does.
pub fn scan_match(chars: &Vec<char>, at: usize) -> (n: usize)
    requires
        at <= chars@.len(),
    ensures
        n == match_len(chars@, at as int),
        at + n <= chars@.len(),
{
    let hex = scan_radix(chars, at, 'x', 'X', Class::HexDigit);
    if hex > 0 {
        return hex;
    }
    let binary = scan_radix(chars, at, 'b', 'B', Class::BinaryDigit);
    if binary > 0 {
        return binary;
    }
    let decimal = scan_decimal(chars, at);
    if decimal > 0 {
        return decimal;
    }
    if at < chars.len() {
        let c = chars[at];
        if c == '(' || c == ')' || c == '+' || c == '*' || c == '-' || c == '=' {
            return 1;
        }
    }
    scan_run(chars, at, Class::Letter)
}

} // verus!
