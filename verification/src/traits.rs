use crate::radix::{parse_unsigned, unsigned_value, IntErrorKind};
use crate::text::{chars_of, is_pair, is_triple};
use core::fmt::{Debug, Display};
use vstd::prelude::*;
use vstd::std_specs::cmp::PartialEqSpec;

verus! {

/// A type with a multiplicative identity.
pub trait One: Sized {
    /// The identity.
    fn one() -> Self;

    /// Whether `self` compares equal to the identity: to a value that `one`
    /// returns.
    fn is_one(&self) -> (r: bool) where Self: PartialEq
        ensures
            Self::obeys_eq_spec() ==> exists|o: Self|
                call_ensures(Self::one, (), o) && r == self.eq_spec(&o),
    {
        *self == Self::one()
    }
}

/// The identity of `T`: what `one` returns.
pub open spec fn one_of<T: One>() -> T {
    choose|r: T| call_ensures(T::one, (), r)
}

/// Whether `one` returns one value only.
pub open spec fn one_is_fixed<T: One>() -> bool {
    forall|r: T| #[trigger] call_ensures(T::one, (), r) ==> r == one_of::<T>()
}

/// Why a text is not a literal.
#[derive(Debug, PartialEq, Eq)]
pub enum FromStrError {
    /// The digits of a radix literal are not a number of the width that its
    /// suffix names.
    ParseInt(IntErrorKind),
    /// The value type's own reader does not take the text, which is held here.
    Any(String),
    /// A radix literal ends in a suffix that names no width; it is held here.
    InvalidSuffix(String),
}

/// A `FromStrError` with its texts as sequences of characters.
pub enum FromStrFailure {
    ParseInt(IntErrorKind),
    Any(Seq<char>),
    InvalidSuffix(Seq<char>),
}

impl View for FromStrError {
    type V = FromStrFailure;

    open spec fn view(&self) -> FromStrFailure {
        match self {
            FromStrError::ParseInt(kind) => FromStrFailure::ParseInt(*kind),
            FromStrError::Any(text) => FromStrFailure::Any(text@),
            FromStrError::InvalidSuffix(suffix) => FromStrFailure::InvalidSuffix(suffix@),
        }
    }
}

/// What a radix literal denotes before a value type takes it.
#[derive(Clone, Copy, Debug, PartialEq, Eq, Structural)]
pub enum Literal {
    /// A number of 8 or 16 bits, read as its suffix says.
    Int(i32),
    /// The 32 bits of a literal without suffix.
    Bits(u32),
}

/// How a value type takes what a radix literal denotes.
pub trait Widen: Sized {
    /// The value that stands for the whole number `n`.
    fn widen(n: i32) -> Self;

    /// The value whose representation is the bit pattern `bits`.
    fn from_bits(bits: u32) -> Self;
}

/// The value of `T` that stands for the whole number `n`: what `widen`
/// returns for it.
pub open spec fn widened<T: Widen>(n: i32) -> T {
    choose|r: T| call_ensures(T::widen, (n,), r)
}

/// The value of `T` whose representation is `bits`: what `from_bits`
/// returns for them.
pub open spec fn of_bits<T: Widen>(bits: u32) -> T {
    choose|r: T| call_ensures(T::from_bits, (bits,), r)
}

/// Whether `widen` and `from_bits` are functions of their argument.
pub open spec fn widening_is_fixed<T: Widen>() -> bool {
    &&& forall|n: i32, r: T| #[trigger] call_ensures(T::widen, (n,), r) ==> r == widened::<T>(n)
    &&& forall|bits: u32, r: T| #[trigger]
        call_ensures(T::from_bits, (bits,), r) ==> r == of_bits::<T>(bits)
}

/// The value that stands for `literal`.
pub open spec fn literal_value<T: Widen>(literal: Literal) -> T {
    match literal {
        Literal::Int(n) => widened::<T>(n),
        Literal::Bits(bits) => of_bits::<T>(bits),
    }
}

/// Where the width suffix of a literal's text begins: at its first `i` or
/// `u`, or at its end if it has neither.
pub open spec fn suffix_start(s: Seq<char>) -> int
    decreases s.len(),
{
    if s.len() == 0 || s[0] == 'i' || s[0] == 'u' {
        0
    } else {
        1 + suffix_start(s.drop_first())
    }
}

/// `s` without the radix prefix that `mark` names, `0` and then `mark` in
/// either case; `s` itself where it does not begin so.
pub open spec fn without_prefix(s: Seq<char>, mark: char, mark_upper: char) -> Seq<char> {
    if s.len() >= 2 && s[0] == '0' && (s[1] == mark || s[1] == mark_upper) {
        s.skip(2)
    } else {
        s
    }
}

/// What the text `s` of a literal in `radix` denotes, its prefix already
/// taken off: the digits before the suffix as a number of the width that the
/// suffix names, read as signed for `i8` and `i16`; without a suffix, as 32
/// bits.
pub open spec fn suffixed_literal(s: Seq<char>, radix: nat) -> Result<Literal, FromStrFailure> {
    let body = s.take(suffix_start(s));
    let suffix = s.skip(suffix_start(s));
    if suffix == seq!['i', '1', '6'] {
        match unsigned_value(body, radix, 0xffff) {
            Ok(n) => Ok(Literal::Int((if n >= 0x8000 { n - 0x1_0000 } else { n as int }) as i32)),
            Err(kind) => Err(FromStrFailure::ParseInt(kind)),
        }
    } else if suffix == seq!['u', '1', '6'] {
        match unsigned_value(body, radix, 0xffff) {
            Ok(n) => Ok(Literal::Int(n as i32)),
            Err(kind) => Err(FromStrFailure::ParseInt(kind)),
        }
    } else if suffix == seq!['u', '8'] {
        match unsigned_value(body, radix, 0xff) {
            Ok(n) => Ok(Literal::Int(n as i32)),
            Err(kind) => Err(FromStrFailure::ParseInt(kind)),
        }
    } else if suffix == seq!['i', '8'] {
        match unsigned_value(body, radix, 0xff) {
            Ok(n) => Ok(Literal::Int((if n >= 0x80 { n - 0x100 } else { n as int }) as i32)),
            Err(kind) => Err(FromStrFailure::ParseInt(kind)),
        }
    } else if suffix.len() == 0 {
        match unsigned_value(body, radix, 0xffff_ffff) {
            Ok(n) => Ok(Literal::Bits(n as u32)),
            Err(kind) => Err(FromStrFailure::ParseInt(kind)),
        }
    } else {
        Err(FromStrFailure::InvalidSuffix(suffix))
    }
}

/// What the hexadecimal literal `s` denotes.
pub open spec fn hex_literal(s: Seq<char>) -> Result<Literal, FromStrFailure> {
    suffixed_literal(without_prefix(s, 'x', 'X'), 16)
}

/// What the binary literal `s` denotes.
pub open spec fn binary_literal(s: Seq<char>) -> Result<Literal, FromStrFailure> {
    suffixed_literal(without_prefix(s, 'b', 'B'), 2)
}

proof fn lemma_suffix_start_step(s: Seq<char>, i: int)
    requires
        0 <= i <= s.len(),
    ensures
        suffix_start(s.skip(i)) == if i == s.len() || s[i] == 'i' || s[i] == 'u' {
            0
        } else {
            1 + suffix_start(s.skip(i + 1))
        },
{
    if i < s.len() {
        assert(s.skip(i).drop_first() == s.skip(i + 1));
    }
}

/// Parts `s` at its first `i` or `u`: the digits before it, and the suffix
/// that it begins. Without either letter all of `s` is digits.
pub fn split_at_first_non_digit(s: &str) -> (parts: (&str, &str))
    ensures
        parts.0@ == s@.take(suffix_start(s@)),
        parts.1@ == s@.skip(suffix_start(s@)),
{
    let chars = chars_of(s);
    let n = chars.len();
    let mut idx: usize = 0;
    proof {
        assert(s@.skip(0) == s@);
    }
    while idx < n && chars[idx] != 'i' && chars[idx] != 'u'
        invariant
            idx <= n,
            n == s@.len(),
            chars@ == s@,
            suffix_start(s@) == idx + suffix_start(s@.skip(idx as int)),
        decreases n - idx,
    {
        proof {
            lemma_suffix_start_step(s@, idx as int);
        }
        idx += 1;
    }
    proof {
        lemma_suffix_start_step(s@, idx as int);
        assert(s@.take(idx as int) == s@.subrange(0, idx as int));
        assert(s@.skip(idx as int) == s@.subrange(idx as int, n as int));
    }
    (s.substring_char(0, idx), s.substring_char(idx, n))
}

/// `n`, a number of at most 16 bits, as an `i32`.
fn small(n: u32) -> (r: i32)
    requires
        n <= 0xffff,
    ensures
        r == n,
{
    n as i32
}

/// Reads `s` as a literal in `radix` whose prefix is `0` and then `mark` in
/// either case.
fn radix_literal(s: &str, radix: u32, mark: char, mark_upper: char) -> (r: Result<
    Literal,
    FromStrError,
>)
    requires
        2 <= radix <= 36,
    ensures
        match suffixed_literal(without_prefix(s@, mark, mark_upper), radix as nat) {
            Ok(literal) => r == Ok::<Literal, FromStrError>(literal),
            Err(failure) => r matches Err(error) && error@ == failure,
        },
{
    let chars = chars_of(s);
    let n = chars.len();
    let rest: &str = if n >= 2 && chars[0] == '0' && (chars[1] == mark || chars[1] == mark_upper) {
        proof {
            assert(s@.skip(2) == s@.subrange(2, n as int));
        }
        s.substring_char(2, n)
    } else {
        s
    };
    let (body, suffix) = split_at_first_non_digit(rest);
    let digits = chars_of(body);
    let width = chars_of(suffix);
    if is_triple(&width, 'i', '1', '6') {
        match parse_unsigned(&digits, radix, 0xffff) {
            Ok(n) => Ok(Literal::Int(if n >= 0x8000 { small(n) - 0x1_0000 } else { small(n) })),
            Err(kind) => Err(FromStrError::ParseInt(kind)),
        }
    } else if is_triple(&width, 'u', '1', '6') {
        match parse_unsigned(&digits, radix, 0xffff) {
            Ok(n) => Ok(Literal::Int(small(n))),
            Err(kind) => Err(FromStrError::ParseInt(kind)),
        }
    } else if is_pair(&width, 'u', '8') {
        match parse_unsigned(&digits, radix, 0xff) {
            Ok(n) => Ok(Literal::Int(small(n))),
            Err(kind) => Err(FromStrError::ParseInt(kind)),
        }
    } else if is_pair(&width, 'i', '8') {
        match parse_unsigned(&digits, radix, 0xff) {
            Ok(n) => Ok(Literal::Int(if n >= 0x80 { small(n) - 0x100 } else { small(n) })),
            Err(kind) => Err(FromStrError::ParseInt(kind)),
        }
    } else if width.len() == 0 {
        match parse_unsigned(&digits, radix, 0xffff_ffff) {
            Ok(n) => Ok(Literal::Bits(n)),
            Err(kind) => Err(FromStrError::ParseInt(kind)),
        }
    } else {
        Err(FromStrError::InvalidSuffix(suffix.to_owned()))
    }
}

/// A value type that reads binary literals: `0b` or `0B`, binary digits, and
/// one of the suffixes `i8`, `u8`, `i16`, `u16` or none.
pub trait FromBinaryStr: Widen {
    fn from_binary_str(s: &str) -> (r: Result<Self, FromStrError>)
        ensures
            r is Ok <==> binary_literal(s@) is Ok,
            r matches Err(error) ==> binary_literal(s@) == Err::<Literal, FromStrFailure>(error@),
            widening_is_fixed::<Self>() ==> (r matches Ok(value) ==> binary_literal(s@) matches Ok(
                literal,
            ) && value == literal_value::<Self>(literal)),
    {
        match radix_literal(s, 2, 'b', 'B') {
            Ok(Literal::Int(n)) => Ok(Self::widen(n)),
            Ok(Literal::Bits(bits)) => Ok(Self::from_bits(bits)),
            Err(error) => Err(error),
        }
    }
}

/// A value type that reads hexadecimal literals: `0x` or `0X`, hexadecimal
/// digits, and one of the suffixes `i8`, `u8`, `i16`, `u16` or none.
pub trait FromHexStr: Widen {
    fn from_hex_str(s: &str) -> (r: Result<Self, FromStrError>)
        ensures
            r is Ok <==> hex_literal(s@) is Ok,
            r matches Err(error) ==> hex_literal(s@) == Err::<Literal, FromStrFailure>(error@),
            widening_is_fixed::<Self>() ==> (r matches Ok(value) ==> hex_literal(s@) matches Ok(
                literal,
            ) && value == literal_value::<Self>(literal)),
    {
        match radix_literal(s, 16, 'x', 'X') {
            Ok(Literal::Int(n)) => Ok(Self::widen(n)),
            Ok(Literal::Bits(bits)) => Ok(Self::from_bits(bits)),
            Err(error) => Err(error),
        }
    }
}

/// A value type that reads decimal text in its own way.
pub trait FromDecimalStr: Sized {
    /// The value that `s` denotes, if the type takes it.
    fn from_decimal_str(s: &str) -> Option<Self>;
}

/// Whether `from_decimal_str` may return `r` for a text of the characters
/// `s`.
pub open spec fn may_read<T: FromDecimalStr>(s: Seq<char>, r: Option<T>) -> bool {
    exists|text: &str| text@ == s && #[trigger] call_ensures(T::from_decimal_str, (text,), r)
}

/// What `T` reads the decimal text `s` as: what `from_decimal_str` returns
/// for it.
pub open spec fn decimal_of<T: FromDecimalStr>(s: Seq<char>) -> Option<T> {
    choose|r: Option<T>| may_read::<T>(s, r)
}

/// Whether `from_decimal_str` is a function of the characters of its text.
pub open spec fn reading_is_fixed<T: FromDecimalStr>() -> bool {
    forall|text: &str, r: Option<T>| #[trigger]
        call_ensures(T::from_decimal_str, (text,), r) ==> r == decimal_of::<T>(text@)
}

/// What the expressions compute with: a value type with arithmetic that is
/// defined on all values, a zero as its default, a one, equality, a form to
/// show, and readers for decimal, binary and hexadecimal text.
pub trait Numeric: Copy + Default + PartialEq + Display + Debug + One + FromBinaryStr + FromHexStr
    + FromDecimalStr {
    /// `self` plus `rhs`.
    fn add(self, rhs: Self) -> Self;

    /// `self` minus `rhs`.
    fn sub(self, rhs: Self) -> Self;

    /// `self` times `rhs`.
    fn mul(self, rhs: Self) -> Self;

    /// `self` divided by `rhs`.
    fn div(self, rhs: Self) -> Self;

    /// The negative of `self`.
    fn neg(self) -> Self;
}

/// The sum of `a` and `b`: what `add` returns for them.
pub open spec fn sum_of<T: Numeric>(a: T, b: T) -> T {
    choose|r: T| call_ensures(T::add, (a, b), r)
}

/// The product of `a` and `b`: what `mul` returns for them.
pub open spec fn product_of<T: Numeric>(a: T, b: T) -> T {
    choose|r: T| call_ensures(T::mul, (a, b), r)
}

/// The difference of `a` and `b`: what `sub` returns for them.
pub open spec fn difference_of<T: Numeric>(a: T, b: T) -> T {
    choose|r: T| call_ensures(T::sub, (a, b), r)
}

/// The negative of `a`: what `neg` returns for it.
pub open spec fn negative_of<T: Numeric>(a: T) -> T {
    choose|r: T| call_ensures(T::neg, (a,), r)
}

/// The zero of `T`: what `default` returns.
pub open spec fn zero_of<T: Numeric>() -> T {
    choose|r: T| call_ensures(T::default, (), r)
}

/// Whether the operations of `T` that the expressions use are functions of
/// their arguments: equal arguments give equal results. Of code that Verus
/// has not read this is not known, so what the library computes with values
/// is stated under this condition.
pub open spec fn is_functional<T: Numeric>() -> bool {
    &&& T::obeys_eq_spec()
    &&& one_is_fixed::<T>()
    &&& widening_is_fixed::<T>()
    &&& reading_is_fixed::<T>()
    &&& forall|r: T| #[trigger] call_ensures(T::default, (), r) ==> r == zero_of::<T>()
    &&& forall|a: T, b: T, r: T| #[trigger] call_ensures(T::add, (a, b), r) ==> r == sum_of(a, b)
    &&& forall|a: T, b: T, r: T| #[trigger]
        call_ensures(T::mul, (a, b), r) ==> r == product_of(a, b)
    &&& forall|a: T, r: T| #[trigger] call_ensures(T::neg, (a,), r) ==> r == negative_of(a)
}

/// The operations of `T` are functions where the contract of each pins its
/// result: where `add`, `mul` and `neg` return what `plus`, `times` and
/// `minus` say, `one` and `default` return `unit` and `zero`, `widen` and
/// `from_bits` return what `whole` and `pattern` say, `from_decimal_str`
/// returns what `reader` says of the characters of its text, and `==`
/// computes what it is specified to. The results that the contracts of the
/// library name are then those.
pub proof fn lemma_functional_where_pinned<T: Numeric>(
    plus: spec_fn(T, T) -> T,
    times: spec_fn(T, T) -> T,
    minus: spec_fn(T) -> T,
    unit: T,
    zero: T,
    whole: spec_fn(i32) -> T,
    pattern: spec_fn(u32) -> T,
    reader: spec_fn(Seq<char>) -> Option<T>,
)
    requires
        T::obeys_eq_spec(),
        forall|a: T, b: T, r: T| #[trigger] call_ensures(T::add, (a, b), r) ==> r == plus(a, b),
        forall|a: T, b: T, r: T| #[trigger] call_ensures(T::mul, (a, b), r) ==> r == times(a, b),
        forall|a: T, r: T| #[trigger] call_ensures(T::neg, (a,), r) ==> r == minus(a),
        forall|r: T| #[trigger] call_ensures(T::one, (), r) ==> r == unit,
        forall|r: T| #[trigger] call_ensures(T::default, (), r) ==> r == zero,
        forall|n: i32, r: T| #[trigger] call_ensures(T::widen, (n,), r) ==> r == whole(n),
        forall|bits: u32, r: T| #[trigger]
            call_ensures(T::from_bits, (bits,), r) ==> r == pattern(bits),
        forall|text: &str, r: Option<T>| #[trigger]
            call_ensures(T::from_decimal_str, (text,), r) ==> r == reader(text@),
    ensures
        is_functional::<T>(),
        forall|a: T, b: T, r: T| #[trigger]
            call_ensures(T::add, (a, b), r) ==> sum_of(a, b) == plus(a, b),
        forall|a: T, b: T, r: T| #[trigger]
            call_ensures(T::mul, (a, b), r) ==> product_of(a, b) == times(a, b),
        forall|a: T, r: T| #[trigger] call_ensures(T::neg, (a,), r) ==> negative_of(a) == minus(a),
        forall|r: T| #[trigger] call_ensures(T::one, (), r) ==> one_of::<T>() == unit,
        forall|r: T| #[trigger] call_ensures(T::default, (), r) ==> zero_of::<T>() == zero,
        forall|n: i32, r: T| #[trigger]
            call_ensures(T::widen, (n,), r) ==> widened::<T>(n) == whole(n),
        forall|bits: u32, r: T| #[trigger]
            call_ensures(T::from_bits, (bits,), r) ==> of_bits::<T>(bits) == pattern(bits),
        forall|text: &str, r: Option<T>| #[trigger]
            call_ensures(T::from_decimal_str, (text,), r) ==> decimal_of::<T>(text@) == reader(
                text@,
            ),
{
    assert forall|text: &str, r: Option<T>| #[trigger]
        call_ensures(T::from_decimal_str, (text,), r) implies r == decimal_of::<T>(text@)
        && decimal_of::<T>(text@) == reader(text@) by {
        assert(may_read::<T>(text@, r));
        let chosen = decimal_of::<T>(text@);
        assert(may_read::<T>(text@, chosen));
    }
}

/// The values of the named constants.
pub struct Constants<T> {
    pub e: T,
    pub pi: T,
}

} // verus!
