use crate::calculate::value_of;
use crate::grammar::{
    is_associative, lemma_sum_round_trip, lemma_sum_stays, Factor, Product, Sum,
};
use crate::parse::{
    minus_one_of, parse_of_scanned, without_minus, without_minus_one, ParsingFailure,
};
use crate::token::{Operator, Token};
use crate::traits::{difference_of, product_of, sum_of, Numeric};
use crate::tree::postorder_values;
use vstd::prelude::*;

verus! {

/// An operand as it is written: a value, or an expression in parentheses.
pub enum Operand<T> {
    Value(T),
    Group(Box<Expression<T>>),
}

/// A term as it is written: one operand, or an operand times a term.
pub enum Term<T> {
    Last(Operand<T>),
    Times(Operand<T>, Box<Term<T>>),
}

/// An expression as it is written: one term, or a term and then, after `+`
/// or `-`, the rest of the expression.
pub enum Expression<T> {
    Last(Term<T>),
    Plus(Term<T>, Box<Expression<T>>),
    Minus(Term<T>, Box<Expression<T>>),
}

/// `a` plus `b`, or `a` minus `b`.
pub open spec fn joined<T: Numeric>(a: T, b: T, minus: bool) -> T {
    if minus {
        difference_of(a, b)
    } else {
        sum_of(a, b)
    }
}

impl<T: Numeric> Operand<T> {
    /// The tokens that write the operand.
    pub open spec fn tokens(self) -> Seq<Token<T>>
        decreases self,
    {
        match self {
            Operand::Value(v) => seq![Token::Value(v)],
            Operand::Group(inner) => seq![Token::Op(Operator::IN)] + inner.tokens() + seq![
                Token::Op(Operator::OUT),
            ],
        }
    }

    /// The operand with every `-` in it read as `+`, `minus_one` and `*`.
    pub open spec fn plain(self, minus_one: T) -> Factor<T>
        decreases self,
    {
        match self {
            Operand::Value(v) => Factor::Value(v),
            Operand::Group(inner) => Factor::Group(Box::new(inner.plain(minus_one))),
        }
    }

    /// The value of the operand, reckoned from left to right.
    pub open spec fn left_to_right(self) -> T
        decreases self,
    {
        match self {
            Operand::Value(v) => v,
            Operand::Group(inner) => inner.left_to_right(),
        }
    }
}

impl<T: Numeric> Term<T> {
    /// The tokens that write the term: its operands with `*` between them.
    pub open spec fn tokens(self) -> Seq<Token<T>>
        decreases self,
    {
        match self {
            Term::Last(operand) => operand.tokens(),
            Term::Times(operand, rest) => operand.tokens() + seq![Token::Op(Operator::MUL)]
                + rest.tokens(),
        }
    }

    /// The term with every `-` in it read as `+`, `minus_one` and `*`.
    pub open spec fn plain(self, minus_one: T) -> Product<T>
        decreases self,
    {
        match self {
            Term::Last(operand) => Product::Last(operand.plain(minus_one)),
            Term::Times(operand, rest) => Product::Times(
                operand.plain(minus_one),
                Box::new(rest.plain(minus_one)),
            ),
        }
    }

    /// `before` times the operands of the term, one after the other.
    pub open spec fn multiplied_onto(self, before: T) -> T
        decreases self,
    {
        match self {
            Term::Last(operand) => product_of(before, operand.left_to_right()),
            Term::Times(operand, rest) => rest.multiplied_onto(
                product_of(before, operand.left_to_right()),
            ),
        }
    }

    /// The value of the term, reckoned from left to right.
    pub open spec fn left_to_right(self) -> T
        decreases self,
    {
        match self {
            Term::Last(operand) => operand.left_to_right(),
            Term::Times(operand, rest) => rest.multiplied_onto(operand.left_to_right()),
        }
    }
}

impl<T: Numeric> Expression<T> {
    /// The tokens that write the expression: its terms with `+` and `-`
    /// between them.
    pub open spec fn tokens(self) -> Seq<Token<T>>
        decreases self,
    {
        match self {
            Expression::Last(term) => term.tokens(),
            Expression::Plus(term, rest) => term.tokens() + seq![Token::Op(Operator::ADD)]
                + rest.tokens(),
            Expression::Minus(term, rest) => term.tokens() + seq![Token::Op(Operator::SUB)]
                + rest.tokens(),
        }
    }

    /// The expression with every `-` in it read as `+`, `minus_one` and
    /// `*`: the term behind a `-` is added with `minus_one` as its first
    /// factor.
    pub open spec fn plain(self, minus_one: T) -> Sum<T>
        decreases self, 0int,
    {
        match self {
            Expression::Last(term) => Sum::Last(term.plain(minus_one)),
            Expression::Plus(term, rest) => Sum::Plus(
                term.plain(minus_one),
                Box::new(rest.plain(minus_one)),
            ),
            Expression::Minus(term, rest) => Sum::Plus(
                term.plain(minus_one),
                Box::new(rest.negated(minus_one)),
            ),
        }
    }

    /// The expression behind a `-`: as `plain`, with `minus_one` as the
    /// first factor of its first term.
    pub open spec fn negated(self, minus_one: T) -> Sum<T>
        decreases self, 0int,
    {
        match self {
            Expression::Last(term) => Sum::Last(
                Product::Times(Factor::Value(minus_one), Box::new(term.plain(minus_one))),
            ),
            Expression::Plus(term, rest) => Sum::Plus(
                Product::Times(Factor::Value(minus_one), Box::new(term.plain(minus_one))),
                Box::new(rest.plain(minus_one)),
            ),
            Expression::Minus(term, rest) => Sum::Plus(
                Product::Times(Factor::Value(minus_one), Box::new(term.plain(minus_one))),
                Box::new(rest.negated(minus_one)),
            ),
        }
    }

    /// `before` and then the terms of the expression, each added or
    /// subtracted as its sign says; `minus` is the sign of the first.
    pub open spec fn joined_onto(self, before: T, minus: bool) -> T
        decreases self,
    {
        match self {
            Expression::Last(term) => joined(before, term.left_to_right(), minus),
            Expression::Plus(term, rest) => rest.joined_onto(
                joined(before, term.left_to_right(), minus),
                false,
            ),
            Expression::Minus(term, rest) => rest.joined_onto(
                joined(before, term.left_to_right(), minus),
                true,
            ),
        }
    }

    /// The value of the expression, reckoned from left to right: `*` before
    /// `+` and `-`, parentheses first.
    pub open spec fn left_to_right(self) -> T
        decreases self,
    {
        match self {
            Expression::Last(term) => term.left_to_right(),
            Expression::Plus(term, rest) => rest.joined_onto(term.left_to_right(), false),
            Expression::Minus(term, rest) => rest.joined_onto(term.left_to_right(), true),
        }
    }
}

/// Rewriting `-` in two runs of tokens is rewriting it in each.
pub proof fn lemma_without_minus_concat<T: Numeric>(
    a: Seq<Token<T>>,
    b: Seq<Token<T>>,
    minus_one: T,
)
    ensures
        without_minus(a + b, minus_one) == without_minus(a, minus_one) + without_minus(
            b,
            minus_one,
        ),
    decreases b.len(),
{
    if b.len() == 0 {
        assert(a + b == a);
        assert(without_minus(a, minus_one) + Seq::<Token<T>>::empty() == without_minus(
            a,
            minus_one,
        ));
    } else {
        assert((a + b).drop_last() == a + b.drop_last());
        assert((a + b).last() == b.last());
        lemma_without_minus_concat(a, b.drop_last(), minus_one);
        let one = without_minus_one(b.last(), minus_one);
        assert(without_minus(a, minus_one) + without_minus(b.drop_last(), minus_one) + one
            == without_minus(a, minus_one) + (without_minus(b.drop_last(), minus_one) + one));
    }
}

proof fn lemma_without_minus_one_token<T: Numeric>(token: Token<T>, minus_one: T)
    ensures
        without_minus(seq![token], minus_one) == without_minus_one(token, minus_one),
{
    assert(seq![token].drop_last() == Seq::<Token<T>>::empty());
    assert(without_minus(Seq::<Token<T>>::empty(), minus_one) == Seq::<Token<T>>::empty());
    assert(seq![token].last() == token);
    assert(Seq::<Token<T>>::empty() + without_minus_one(token, minus_one) == without_minus_one(
        token,
        minus_one,
    ));
}

/// Rewriting `-` in two runs of tokens with one token between them.
proof fn lemma_without_minus_joined<T: Numeric>(
    a: Seq<Token<T>>,
    joint: Token<T>,
    b: Seq<Token<T>>,
    minus_one: T,
)
    ensures
        without_minus(a + seq![joint] + b, minus_one) == without_minus(a, minus_one)
            + without_minus_one(joint, minus_one) + without_minus(b, minus_one),
{
    lemma_without_minus_concat(a + seq![joint], b, minus_one);
    lemma_without_minus_concat(a, seq![joint], minus_one);
    lemma_without_minus_one_token(joint, minus_one);
}

/// The tokens of an operand, with `-` rewritten, are the tokens of the
/// operand read plainly.
pub proof fn lemma_operand_rewritten<T: Numeric>(operand: Operand<T>, minus_one: T)
    ensures
        without_minus(operand.tokens(), minus_one) == operand.plain(minus_one).tokens(),
    decreases operand,
{
    match operand {
        Operand::Value(v) => {
            lemma_without_minus_one_token(Token::Value(v), minus_one);
        },
        Operand::Group(inner) => {
            let open = Token::<T>::Op(Operator::IN);
            let close = Token::<T>::Op(Operator::OUT);
            lemma_expression_rewritten(*inner, minus_one);
            lemma_without_minus_concat(seq![open] + inner.tokens(), seq![close], minus_one);
            lemma_without_minus_concat(seq![open], inner.tokens(), minus_one);
            lemma_without_minus_one_token(open, minus_one);
            lemma_without_minus_one_token(close, minus_one);
        },
    }
}

/// The tokens of a term, with `-` rewritten, are the tokens of the term read
/// plainly.
pub proof fn lemma_term_rewritten<T: Numeric>(term: Term<T>, minus_one: T)
    ensures
        without_minus(term.tokens(), minus_one) == term.plain(minus_one).tokens(),
    decreases term,
{
    match term {
        Term::Last(operand) => {
            lemma_operand_rewritten(operand, minus_one);
        },
        Term::Times(operand, rest) => {
            lemma_operand_rewritten(operand, minus_one);
            lemma_term_rewritten(*rest, minus_one);
            lemma_without_minus_joined(
                operand.tokens(),
                Token::Op(Operator::MUL),
                rest.tokens(),
                minus_one,
            );
        },
    }
}

/// The tokens of an expression, with `-` rewritten, are the tokens of the
/// expression read plainly; behind a `-` they follow `minus_one` and `*`.
pub proof fn lemma_expression_rewritten<T: Numeric>(expression: Expression<T>, minus_one: T)
    ensures
        without_minus(expression.tokens(), minus_one) == expression.plain(minus_one).tokens(),
        expression.negated(minus_one).tokens() == seq![
            Token::Value(minus_one),
            Token::Op(Operator::MUL),
        ] + expression.plain(minus_one).tokens(),
    decreases expression,
{
    let factor = seq![Token::<T>::Value(minus_one)];
    let times = seq![Token::<T>::Op(Operator::MUL)];
    let plus = seq![Token::<T>::Op(Operator::ADD)];
    assert(seq![Token::<T>::Value(minus_one), Token::<T>::Op(Operator::MUL)] == factor + times);
    match expression {
        Expression::Last(term) => {
            lemma_term_rewritten(term, minus_one);
            let t = term.plain(minus_one).tokens();
            let negative = Product::Times(
                Factor::Value(minus_one),
                Box::new(term.plain(minus_one)),
            );
            assert(Factor::Value(minus_one).tokens() == factor);
            assert(negative.tokens() == factor + times + t);
            assert(expression.negated(minus_one).tokens() == negative.tokens());
            assert(expression.plain(minus_one).tokens() == t);
            assert(factor + times + t == (factor + times) + t);
        },
        Expression::Plus(term, rest) => {
            lemma_term_rewritten(term, minus_one);
            lemma_expression_rewritten(*rest, minus_one);
            lemma_without_minus_joined(
                term.tokens(),
                Token::Op(Operator::ADD),
                rest.tokens(),
                minus_one,
            );
            let t = term.plain(minus_one).tokens();
            let r = rest.plain(minus_one).tokens();
            let negative = Product::Times(
                Factor::Value(minus_one),
                Box::new(term.plain(minus_one)),
            );
            assert(Factor::Value(minus_one).tokens() == factor);
            assert(negative.tokens() == factor + times + t);
            assert(expression.negated(minus_one).tokens() == negative.tokens() + plus + r);
            assert(expression.plain(minus_one).tokens() == t + plus + r);
            assert((factor + times + t) + plus + r == (factor + times) + (t + plus + r));
        },
        Expression::Minus(term, rest) => {
            lemma_term_rewritten(term, minus_one);
            lemma_expression_rewritten(*rest, minus_one);
            lemma_without_minus_joined(
                term.tokens(),
                Token::Op(Operator::SUB),
                rest.tokens(),
                minus_one,
            );
            let t = term.plain(minus_one).tokens();
            let r = rest.plain(minus_one).tokens();
            let n = rest.negated(minus_one).tokens();
            let negative = Product::Times(
                Factor::Value(minus_one),
                Box::new(term.plain(minus_one)),
            );
            assert(Factor::Value(minus_one).tokens() == factor);
            assert(negative.tokens() == factor + times + t);
            assert(expression.negated(minus_one).tokens() == negative.tokens() + plus + n);
            assert(expression.plain(minus_one).tokens() == t + plus + n);
            assert(without_minus_one(Token::<T>::Op(Operator::SUB), minus_one) == plus + factor
                + times);
            assert(t + (plus + factor + times) + r == t + plus + ((factor + times) + r));
            assert((factor + times + t) + plus + n == (factor + times) + (t + plus + n));
        },
    }
}

/// Whether subtracting a value is adding its product with `minus_one`.
pub open spec fn subtracts_by_negation<T: Numeric>(minus_one: T) -> bool {
    forall|a: T, b: T| #[trigger] difference_of(a, b) == sum_of(a, product_of(minus_one, b))
}

/// Under the usual laws an operand read plainly has the value that it has
/// from left to right.
pub proof fn lemma_operand_value<T: Numeric>(operand: Operand<T>, minus_one: T)
    requires
        is_associative::<T>(),
        subtracts_by_negation(minus_one),
    ensures
        operand.left_to_right() == operand.plain(minus_one).value(),
    decreases operand,
{
    match operand {
        Operand::Value(v) => {},
        Operand::Group(inner) => {
            lemma_expression_value(*inner, minus_one, inner.left_to_right());
        },
    }
}

/// Under the usual laws a term read plainly has the value that it has from
/// left to right.
pub proof fn lemma_term_value<T: Numeric>(term: Term<T>, minus_one: T, before: T)
    requires
        is_associative::<T>(),
        subtracts_by_negation(minus_one),
    ensures
        term.left_to_right() == term.plain(minus_one).value(),
        term.multiplied_onto(before) == product_of(before, term.plain(minus_one).value()),
    decreases term,
{
    match term {
        Term::Last(operand) => {
            lemma_operand_value(operand, minus_one);
        },
        Term::Times(operand, rest) => {
            lemma_operand_value(operand, minus_one);
            let first = operand.plain(minus_one).value();
            let others = rest.plain(minus_one).value();
            lemma_term_value(*rest, minus_one, first);
            lemma_term_value(*rest, minus_one, product_of(before, first));
            assert(product_of(product_of(before, first), others) == product_of(
                before,
                product_of(first, others),
            ));
        },
    }
}

/// Under the usual laws an expression read plainly has the value that it has
/// from left to right, and behind a `-` the negative of it.
pub proof fn lemma_expression_value<T: Numeric>(
    expression: Expression<T>,
    minus_one: T,
    before: T,
)
    requires
        is_associative::<T>(),
        subtracts_by_negation(minus_one),
    ensures
        expression.left_to_right() == expression.plain(minus_one).value(),
        expression.joined_onto(before, false) == sum_of(
            before,
            expression.plain(minus_one).value(),
        ),
        expression.joined_onto(before, true) == sum_of(
            before,
            expression.negated(minus_one).value(),
        ),
    decreases expression,
{
    match expression {
        Expression::Last(term) => {
            lemma_term_value(term, minus_one, before);
            let first = term.plain(minus_one).value();
            let negative = Product::Times(
                Factor::Value(minus_one),
                Box::new(term.plain(minus_one)),
            );
            assert(Factor::Value(minus_one).value() == minus_one);
            assert(negative.value() == product_of(minus_one, first));
            assert(expression.negated(minus_one).value() == negative.value());
        },
        Expression::Plus(term, rest) => {
            lemma_term_value(term, minus_one, before);
            let first = term.plain(minus_one).value();
            let others = rest.plain(minus_one).value();
            let negative = Product::Times(
                Factor::Value(minus_one),
                Box::new(term.plain(minus_one)),
            );
            assert(Factor::Value(minus_one).value() == minus_one);
            assert(negative.value() == product_of(minus_one, first));
            assert(expression.negated(minus_one).value() == sum_of(negative.value(), others));
            lemma_expression_value(*rest, minus_one, first);
            lemma_expression_value(*rest, minus_one, sum_of(before, first));
            lemma_expression_value(*rest, minus_one, difference_of(before, first));
            assert(sum_of(sum_of(before, first), others) == sum_of(
                before,
                sum_of(first, others),
            ));
            assert(sum_of(sum_of(before, product_of(minus_one, first)), others) == sum_of(
                before,
                sum_of(product_of(minus_one, first), others),
            ));
        },
        Expression::Minus(term, rest) => {
            lemma_term_value(term, minus_one, before);
            let first = term.plain(minus_one).value();
            let others = rest.negated(minus_one).value();
            let negative = Product::Times(
                Factor::Value(minus_one),
                Box::new(term.plain(minus_one)),
            );
            assert(Factor::Value(minus_one).value() == minus_one);
            assert(negative.value() == product_of(minus_one, first));
            assert(expression.negated(minus_one).value() == sum_of(negative.value(), others));
            lemma_expression_value(*rest, minus_one, first);
            lemma_expression_value(*rest, minus_one, sum_of(before, first));
            lemma_expression_value(*rest, minus_one, difference_of(before, first));
            assert(sum_of(sum_of(before, first), others) == sum_of(
                before,
                sum_of(first, others),
            ));
            assert(sum_of(sum_of(before, product_of(minus_one, first)), others) == sum_of(
                before,
                sum_of(product_of(minus_one, first), others),
            ));
        },
    }
}

/// The tokens of an expression parse, as they come from the scan, to the
/// tree of the expression read plainly, with `a - b` as `a + -1 * b`, and
/// the walk of that tree leaves the value of that reading. Where the sum and
/// the product of the value type are associative and subtracting is adding
/// the product with minus one, that value is the value of the expression as
/// it is reckoned from left to right, `*` before `+` and `-`, parentheses
/// first. The one expression that does not parse is one whose tree outgrows
/// the machine.
pub proof fn lemma_expression_round_trip<T: Numeric>(expression: Expression<T>)
    requires
        expression.plain(minus_one_of::<T>()).array().len() <= usize::MAX,
    ensures
        parse_of_scanned(expression.tokens()) == Ok::<Seq<Token<T>>, ParsingFailure>(
            expression.plain(minus_one_of::<T>()).array(),
        ),
        value_of(
            postorder_values(expression.plain(minus_one_of::<T>()).array(), Token::Empty, 0),
        ) == expression.plain(minus_one_of::<T>()).value(),
        is_associative::<T>() && subtracts_by_negation(minus_one_of::<T>()) ==> value_of(
            postorder_values(expression.plain(minus_one_of::<T>()).array(), Token::Empty, 0),
        ) == expression.left_to_right(),
{
    let minus_one = minus_one_of::<T>();
    let plain = expression.plain(minus_one);
    lemma_expression_rewritten(expression, minus_one);
    lemma_sum_stays(plain, minus_one);
    lemma_sum_round_trip(plain);
    if is_associative::<T>() && subtracts_by_negation(minus_one) {
        lemma_expression_value(expression, minus_one, plain.value());
    }
}

} // verus!
