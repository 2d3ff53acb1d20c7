use crate::text::chars_of;
use crate::traits::{
    binary_literal, decimal_of, hex_literal, is_functional, literal_value, FromStrError,
    FromStrFailure, Literal, Numeric,
};
use vstd::prelude::*;
use vstd::std_specs::cmp::{PartialEqSpec, PartialEqSpecImpl};

verus! {

/// The operators and marks of an expression.
#[derive(Debug, PartialEq, Eq, Clone, Copy, Structural)]
pub enum Operator {
    EQ,
    IN,
    OUT,
    ADD,
    MUL,
    SUB,
}

impl Operator {
    /// The character that the operator is written with.
    pub open spec fn glyph(self) -> char {
        match self {
            Operator::EQ => '=',
            Operator::IN => '(',
            Operator::OUT => ')',
            Operator::ADD => '+',
            Operator::MUL => '*',
            Operator::SUB => '-',
        }
    }

    /// The operator as text: its glyph.
    pub fn to_string(&self) -> (text: String)
        ensures
            text@ == seq![self.glyph()],
    {
        let symbol = match self {
            Operator::EQ => {
                proof {
                    reveal_strlit("=");
                }
                "="
            },
            Operator::IN => {
                proof {
                    reveal_strlit("(");
                }
                "("
            },
            Operator::OUT => {
                proof {
                    reveal_strlit(")");
                }
                ")"
            },
            Operator::ADD => {
                proof {
                    reveal_strlit("+");
                }
                "+"
            },
            Operator::MUL => {
                proof {
                    reveal_strlit("*");
                }
                "*"
            },
            Operator::SUB => {
                proof {
                    reveal_strlit("-");
                }
                "-"
            },
        };
        assert(symbol@ =~= seq![self.glyph()]);
        symbol.to_owned()
    }
}

/// One unit of an expression: an operator, a value, or the mark of a tree
/// slot without a node.
#[derive(Debug, Copy)]
pub enum Token<T> where T: Numeric {
    Empty,
    Op(Operator),
    Value(T),
}

impl<T: Numeric> Clone for Token<T> {
    fn clone(&self) -> (token: Self)
        ensures
            token == *self,
    {
        *self
    }
}

impl<T: Numeric> PartialEq for Token<T> {
    fn eq(&self, other: &Self) -> (r: bool) {
        match (self, other) {
            (Token::Empty, Token::Empty) => true,
            (Token::Op(a), Token::Op(b)) => *a == *b,
            (Token::Value(a), Token::Value(b)) => *a == *b,
            _ => false,
        }
    }
}

impl<T: Numeric> PartialEqSpecImpl for Token<T> {
    open spec fn obeys_eq_spec() -> bool {
        T::obeys_eq_spec()
    }

    /// Two tokens are equal where they are of one shape and hold equal
    /// operators, or values that compare equal.
    open spec fn eq_spec(&self, other: &Self) -> bool {
        match (self, other) {
            (Token::Empty, Token::Empty) => true,
            (Token::Op(a), Token::Op(b)) => a == b,
            (Token::Value(a), Token::Value(b)) => a.eq_spec(b),
            _ => false,
        }
    }
}

impl<T: Numeric> PartialEq<Operator> for Token<T> {
    fn eq(&self, other: &Operator) -> (r: bool) {
        match self {
            Token::Op(op) => *op == *other,
            _ => false,
        }
    }
}

impl<T: Numeric> PartialEqSpecImpl<Operator> for Token<T> {
    open spec fn obeys_eq_spec() -> bool {
        true
    }

    /// A token equals an operator where it holds that operator.
    open spec fn eq_spec(&self, other: &Operator) -> bool {
        *self == Token::<T>::Op(*other)
    }
}

/// The operator that the one character `c` writes, if it writes one.
pub open spec fn operator_of(c: char) -> Option<Operator> {
    if c == '*' {
        Some(Operator::MUL)
    } else if c == '+' {
        Some(Operator::ADD)
    } else if c == '-' {
        Some(Operator::SUB)
    } else if c == '(' {
        Some(Operator::IN)
    } else if c == ')' {
        Some(Operator::OUT)
    } else if c == '=' {
        Some(Operator::EQ)
    } else {
        None
    }
}

/// Whether `s` begins with `0` and then `mark` in either case.
pub open spec fn has_prefix(s: Seq<char>, mark: char, mark_upper: char) -> bool {
    s.len() >= 2 && s[0] == '0' && (s[1] == mark || s[1] == mark_upper)
}

/// The token that the text `s` writes: an operator for its glyph, a value
/// for a hexadecimal or a binary literal, and for any other text what the
/// value type reads it as.
pub open spec fn token_of<T: Numeric>(s: Seq<char>) -> Result<Token<T>, FromStrFailure> {
    if s.len() == 1 && operator_of(s[0]) is Some {
        Ok(Token::Op(operator_of(s[0])->0))
    } else if has_prefix(s, 'x', 'X') {
        match hex_literal(s) {
            Ok(literal) => Ok(Token::Value(literal_value(literal))),
            Err(failure) => Err(failure),
        }
    } else if has_prefix(s, 'b', 'B') {
        match binary_literal(s) {
            Ok(literal) => Ok(Token::Value(literal_value(literal))),
            Err(failure) => Err(failure),
        }
    } else {
        match decimal_of::<T>(s) {
            Some(value) => Ok(Token::Value(value)),
            None => Err(FromStrFailure::Any(s)),
        }
    }
}

impl<T: Numeric> Token<T> {
    /// The token as text: the glyph of an operator, the value as its type
    /// shows it, and `empty` for the mark of a vacant slot.
    pub fn to_string(&self) -> (text: String)
        ensures
            match self {
                Token::Op(op) => text@ == seq![op.glyph()],
                Token::Value(v) => vstd::string::to_string_from_display_ensures::<T>(v, text),
                Token::Empty => text@ == "empty"@,
            },
    {
        match self {
            Token::Op(op) => op.to_string(),
            Token::Value(v) => v.to_string(),
            Token::Empty => "empty".to_owned(),
        }
    }

    /// Reads one token from `s`.
    pub fn from_str(s: &str) -> (r: Result<Self, FromStrError>)
        ensures
            s@.len() == 1 && operator_of(s@[0]) is Some ==> r == Ok::<Self, FromStrError>(
                Token::Op(operator_of(s@[0])->0),
            ),
            has_prefix(s@, 'x', 'X') ==> (r is Ok <==> hex_literal(s@) is Ok) && (r matches Err(
                error,
            ) ==> hex_literal(s@) == Err::<Literal, FromStrFailure>(error@)),
            !has_prefix(s@, 'x', 'X') && has_prefix(s@, 'b', 'B') ==> (r is Ok <==> binary_literal(
                s@,
            ) is Ok) && (r matches Err(error) ==> binary_literal(s@) == Err::<
                Literal,
                FromStrFailure,
            >(error@)),
            !has_prefix(s@, 'x', 'X') && !has_prefix(s@, 'b', 'B') ==> (r matches Err(error)
                ==> error@ == FromStrFailure::Any(s@)),
            is_functional::<T>() ==> match token_of::<T>(s@) {
                Ok(token) => r == Ok::<Self, FromStrError>(token),
                Err(failure) => r matches Err(error) && error@ == failure,
            },
    {
        let chars = chars_of(s);
        let n = chars.len();
        if n == 1 {
            let c = chars[0];
            if c == '*' {
                return Ok(Token::<T>::mul());
            } else if c == '+' {
                return Ok(Token::<T>::add());
            } else if c == '-' {
                return Ok(Token::<T>::sub());
            } else if c == '(' {
                return Ok(Token::<T>::i());
            } else if c == ')' {
                return Ok(Token::<T>::out());
            } else if c == '=' {
                return Ok(Token::<T>::eq());
            }
        }
        if n >= 2 && chars[0] == '0' && (chars[1] == 'x' || chars[1] == 'X') {
            match T::from_hex_str(s) {
                Ok(value) => Ok(Token::Value(value)),
                Err(error) => Err(error),
            }
        } else if n >= 2 && chars[0] == '0' && (chars[1] == 'b' || chars[1] == 'B') {
            match T::from_binary_str(s) {
                Ok(value) => Ok(Token::Value(value)),
                Err(error) => Err(error),
            }
        } else {
            match T::from_decimal_str(s) {
                Some(value) => Ok(Token::Value(value)),
                None => Err(FromStrError::Any(s.to_owned())),
            }
        }
    }

    /// The token of `*`.
    pub fn mul() -> (token: Self)
        ensures
            token == Token::<T>::Op(Operator::MUL),
    {
        Self::Op(Operator::MUL)
    }

    /// The token of `+`.
    pub fn add() -> (token: Self)
        ensures
            token == Token::<T>::Op(Operator::ADD),
    {
        Self::Op(Operator::ADD)
    }

    /// The token of `=`.
    pub fn eq() -> (token: Self)
        ensures
            token == Token::<T>::Op(Operator::EQ),
    {
        Self::Op(Operator::EQ)
    }

    /// The token of `(`.
    pub fn i() -> (token: Self)
        ensures
            token == Token::<T>::Op(Operator::IN),
    {
        Self::Op(Operator::IN)
    }

    /// The token of `)`.
    pub fn out() -> (token: Self)
        ensures
            token == Token::<T>::Op(Operator::OUT),
    {
        Self::Op(Operator::OUT)
    }

    /// The token of `-`.
    pub fn sub() -> (token: Self)
        ensures
            token == Token::<T>::Op(Operator::SUB),
    {
        Self::Op(Operator::SUB)
    }

    /// Whether the token is `+`.
    pub fn is_add(&self) -> (r: bool)
        ensures
            r == (*self == Token::<T>::Op(Operator::ADD)),
    {
        *self == Operator::ADD
    }

    /// Whether the token is `*`.
    pub fn is_mul(&self) -> (r: bool)
        ensures
            r == (*self == Token::<T>::Op(Operator::MUL)),
    {
        *self == Operator::MUL
    }

    /// Whether the token is `(`.
    pub fn is_in(&self) -> (r: bool)
        ensures
            r == (*self == Token::<T>::Op(Operator::IN)),
    {
        *self == Operator::IN
    }

    /// Whether the token is `)`.
    pub fn is_out(&self) -> (r: bool)
        ensures
            r == (*self == Token::<T>::Op(Operator::OUT)),
    {
        *self == Operator::OUT
    }

    /// Whether the token is `=`.
    pub fn is_eq(&self) -> (r: bool)
        ensures
            r == (*self == Token::<T>::Op(Operator::EQ)),
    {
        *self == Operator::EQ
    }
}

} // verus!
