use crate::calculate::{folded, value_of, visited};
use crate::parse::{
    action_for, count_of, lemma_count_of_concat, lemma_count_of_one, lemma_without_minus_fixed,
    minus_one_of, parse_of_scanned, parsed, rectified, run, top_of, without_minus, Action,
    ParsingFailure,
};
use crate::token::{Operator, Token};
use crate::traits::{product_of, sum_of, Numeric};
use crate::tree::{
    level_start, lemma_merge_postorder, merged, postorder, postorder_values, whole_levels,
};
use vstd::prelude::*;

verus! {

/// A value, or a sum in parentheses.
pub enum Factor<T> {
    Value(T),
    Group(Box<Sum<T>>),
}

/// One factor, or a factor times a product.
pub enum Product<T> {
    Last(Factor<T>),
    Times(Factor<T>, Box<Product<T>>),
}

/// One product, or a product plus a sum.
pub enum Sum<T> {
    Last(Product<T>),
    Plus(Product<T>, Box<Sum<T>>),
}

impl<T: Numeric> Factor<T> {
    /// The tokens that write the factor.
    pub open spec fn tokens(self) -> Seq<Token<T>>
        decreases self,
    {
        match self {
            Factor::Value(v) => seq![Token::Value(v)],
            Factor::Group(sum) => seq![Token::Op(Operator::IN)] + sum.tokens() + seq![
                Token::Op(Operator::OUT),
            ],
        }
    }

    /// The array of the tree of the factor.
    pub open spec fn array(self) -> Seq<Token<T>>
        decreases self,
    {
        match self {
            Factor::Value(v) => seq![Token::Value(v)],
            Factor::Group(sum) => sum.array(),
        }
    }

    /// The value of the factor.
    pub open spec fn value(self) -> T
        decreases self,
    {
        match self {
            Factor::Value(v) => v,
            Factor::Group(sum) => sum.value(),
        }
    }

    /// The value of the factor, with every chain of operators in it taken
    /// from the left.
    pub open spec fn left_to_right(self) -> T
        decreases self,
    {
        match self {
            Factor::Value(v) => v,
            Factor::Group(sum) => sum.left_to_right(),
        }
    }
}

impl<T: Numeric> Product<T> {
    /// The tokens that write the product: its factors with `*` between them.
    pub open spec fn tokens(self) -> Seq<Token<T>>
        decreases self,
    {
        match self {
            Product::Last(factor) => factor.tokens(),
            Product::Times(factor, rest) => factor.tokens() + seq![Token::Op(Operator::MUL)]
                + rest.tokens(),
        }
    }

    /// The array of the tree of the product: `*` over the first factor and
    /// the rest.
    pub open spec fn array(self) -> Seq<Token<T>>
        decreases self,
    {
        match self {
            Product::Last(factor) => factor.array(),
            Product::Times(factor, rest) => merged(
                factor.array(),
                Token::Op(Operator::MUL),
                rest.array(),
                Token::Empty,
            ),
        }
    }

    /// The value of the product: the first factor times the value of the
    /// rest.
    pub open spec fn value(self) -> T
        decreases self,
    {
        match self {
            Product::Last(factor) => factor.value(),
            Product::Times(factor, rest) => product_of(factor.value(), rest.value()),
        }
    }

    /// `before` times the factors of the product, one after the other.
    pub open spec fn multiplied_onto(self, before: T) -> T
        decreases self,
    {
        match self {
            Product::Last(factor) => product_of(before, factor.left_to_right()),
            Product::Times(factor, rest) => rest.multiplied_onto(
                product_of(before, factor.left_to_right()),
            ),
        }
    }

    /// The value of the product taken from the left: the first factor times
    /// the second, that times the third, and so on.
    pub open spec fn left_to_right(self) -> T
        decreases self,
    {
        match self {
            Product::Last(factor) => factor.left_to_right(),
            Product::Times(factor, rest) => rest.multiplied_onto(factor.left_to_right()),
        }
    }

    /// The `*` that the parser holds back while it reads the product.
    pub open spec fn held_ops(self) -> Seq<Token<T>>
        decreases self,
    {
        match self {
            Product::Last(factor) => Seq::empty(),
            Product::Times(factor, rest) => seq![Token::Op(Operator::MUL)] + rest.held_ops(),
        }
    }

    /// The trees that the parser holds back while it reads the product: one
    /// for each factor.
    pub open spec fn held_trees(self) -> Seq<Seq<Token<T>>>
        decreases self,
    {
        match self {
            Product::Last(factor) => seq![factor.array()],
            Product::Times(factor, rest) => seq![factor.array()] + rest.held_trees(),
        }
    }
}

impl<T: Numeric> Sum<T> {
    /// The tokens that write the sum: its products with `+` between them.
    pub open spec fn tokens(self) -> Seq<Token<T>>
        decreases self,
    {
        match self {
            Sum::Last(product) => product.tokens(),
            Sum::Plus(product, rest) => product.tokens() + seq![Token::Op(Operator::ADD)]
                + rest.tokens(),
        }
    }

    /// The array of the tree of the sum: `+` over the first product and the
    /// rest.
    pub open spec fn array(self) -> Seq<Token<T>>
        decreases self,
    {
        match self {
            Sum::Last(product) => product.array(),
            Sum::Plus(product, rest) => merged(
                product.array(),
                Token::Op(Operator::ADD),
                rest.array(),
                Token::Empty,
            ),
        }
    }

    /// The value of the sum: the first product plus the value of the rest.
    pub open spec fn value(self) -> T
        decreases self,
    {
        match self {
            Sum::Last(product) => product.value(),
            Sum::Plus(product, rest) => sum_of(product.value(), rest.value()),
        }
    }

    /// `before` plus the products of the sum, one after the other.
    pub open spec fn added_onto(self, before: T) -> T
        decreases self,
    {
        match self {
            Sum::Last(product) => sum_of(before, product.left_to_right()),
            Sum::Plus(product, rest) => rest.added_onto(sum_of(before, product.left_to_right())),
        }
    }

    /// The value of the sum taken from the left: the first product plus the
    /// second, that plus the third, and so on.
    pub open spec fn left_to_right(self) -> T
        decreases self,
    {
        match self {
            Sum::Last(product) => product.left_to_right(),
            Sum::Plus(product, rest) => rest.added_onto(product.left_to_right()),
        }
    }

    /// The operators that the parser holds back while it reads the sum: a
    /// `+` for each product but the last, and the `*` of the last.
    pub open spec fn held_ops(self) -> Seq<Token<T>>
        decreases self,
    {
        match self {
            Sum::Last(product) => product.held_ops(),
            Sum::Plus(product, rest) => seq![Token::Op(Operator::ADD)] + rest.held_ops(),
        }
    }

    /// The trees that the parser holds back while it reads the sum: one for
    /// each product but the last, and one for each factor of the last.
    pub open spec fn held_trees(self) -> Seq<Seq<Token<T>>>
        decreases self,
    {
        match self {
            Sum::Last(product) => product.held_trees(),
            Sum::Plus(product, rest) => seq![product.array()] + rest.held_trees(),
        }
    }
}

/// Whether `tokens` holds `part` from `at` on.
pub open spec fn holds_at<T: Numeric>(tokens: Seq<Token<T>>, at: int, part: Seq<Token<T>>) -> bool {
    0 <= at && at + part.len() <= tokens.len() && tokens.subrange(at, at + part.len()) == part
}

proof fn lemma_holds_parts<T: Numeric>(
    tokens: Seq<Token<T>>,
    at: int,
    a: Seq<Token<T>>,
    b: Seq<Token<T>>,
    c: Seq<Token<T>>,
)
    requires
        holds_at(tokens, at, a + b + c),
    ensures
        holds_at(tokens, at, a),
        holds_at(tokens, at + a.len(), b),
        holds_at(tokens, at + a.len() + b.len(), c),
{
    let whole = a + b + c;
    assert forall|i: int| 0 <= i < whole.len() implies tokens[at + i] == whole[i] by {
        assert(tokens.subrange(at, at + whole.len())[i] == tokens[at + i]);
    }
    assert(tokens.subrange(at, at + a.len()) =~= a) by {
        assert forall|i: int| 0 <= i < a.len() implies tokens[at + i] == a[i] by {
            assert(whole[i] == a[i]);
        }
    }
    assert(tokens.subrange(at + a.len(), at + a.len() + b.len()) =~= b) by {
        assert forall|i: int| 0 <= i < b.len() implies tokens[at + a.len() + i] == b[i] by {
            assert(whole[a.len() + i] == b[i]);
        }
    }
    assert(tokens.subrange(at + a.len() + b.len(), at + a.len() + b.len() + c.len()) =~= c) by {
        assert forall|i: int| 0 <= i < c.len() implies tokens[at + a.len() + b.len() + i]
            == c[i] by {
            assert(whole[a.len() + b.len() + i] == c[i]);
        }
    }
}

/// Whether `token` ends a product: `+`, `)` or `=`.
pub open spec fn ends_product<T: Numeric>(token: Token<T>) -> bool {
    token == Token::<T>::Op(Operator::ADD) || ends_sum(token)
}

/// Whether `token` ends a sum: `)` or `=`.
pub open spec fn ends_sum<T: Numeric>(token: Token<T>) -> bool {
    token == Token::<T>::Op(Operator::OUT) || token == Token::<T>::Op(Operator::EQ)
}

/// At the token that ends a product the parser reduces what it held back of
/// the product to the product's tree.
proof fn lemma_reduces_product<T: Numeric>(
    product: Product<T>,
    tokens: Seq<Token<T>>,
    at: int,
    ops: Seq<Token<T>>,
    trees: Seq<Seq<Token<T>>>,
    limit: int,
)
    requires
        0 <= at < tokens.len(),
        ends_product(tokens[at]),
        product.array().len() <= limit,
    ensures
        run(tokens, at, ops + product.held_ops(), trees + product.held_trees(), limit) == run(
            tokens,
            at,
            ops,
            trees.push(product.array()),
            limit,
        ),
    decreases product,
{
    match product {
        Product::Last(factor) => {
            assert(ops + product.held_ops() == ops);
            assert(trees + product.held_trees() == trees.push(product.array()));
        },
        Product::Times(factor, rest) => {
            let times = Token::<T>::Op(Operator::MUL);
            let below_ops = ops.push(times);
            let below_trees = trees.push(factor.array());
            assert(ops + product.held_ops() == below_ops + rest.held_ops());
            assert(trees + product.held_trees() == below_trees + rest.held_trees());
            lemma_reduces_product(*rest, tokens, at, below_ops, below_trees, limit);
            let reduced = below_trees.push(rest.array());
            assert(top_of(below_ops) == Some(times));
            assert(action_for(tokens[at], top_of(below_ops), reduced.len()) == Action::Reduce(
                Operator::MUL,
            ));
            assert(below_ops.drop_last() == ops);
            assert(reduced.drop_last().drop_last().push(product.array()) == trees.push(
                product.array(),
            ));
        },
    }
}

/// At the token that ends a sum the parser reduces what it held back of the
/// sum to the sum's tree.
proof fn lemma_reduces_sum<T: Numeric>(
    sum: Sum<T>,
    tokens: Seq<Token<T>>,
    at: int,
    ops: Seq<Token<T>>,
    trees: Seq<Seq<Token<T>>>,
    limit: int,
)
    requires
        0 <= at < tokens.len(),
        ends_sum(tokens[at]),
        sum.array().len() <= limit,
    ensures
        run(tokens, at, ops + sum.held_ops(), trees + sum.held_trees(), limit) == run(
            tokens,
            at,
            ops,
            trees.push(sum.array()),
            limit,
        ),
    decreases sum,
{
    match sum {
        Sum::Last(product) => {
            lemma_reduces_product(product, tokens, at, ops, trees, limit);
        },
        Sum::Plus(product, rest) => {
            let plus = Token::<T>::Op(Operator::ADD);
            let below_ops = ops.push(plus);
            let below_trees = trees.push(product.array());
            assert(ops + sum.held_ops() == below_ops + rest.held_ops());
            assert(trees + sum.held_trees() == below_trees + rest.held_trees());
            lemma_reduces_sum(*rest, tokens, at, below_ops, below_trees, limit);
            let reduced = below_trees.push(rest.array());
            assert(top_of(below_ops) == Some(plus));
            assert(action_for(tokens[at], top_of(below_ops), reduced.len()) == Action::Reduce(
                Operator::ADD,
            ));
            assert(below_ops.drop_last() == ops);
            assert(reduced.drop_last().drop_last().push(sum.array()) == trees.push(sum.array()));
        },
    }
}

/// The parser reads a factor into one tree.
proof fn lemma_reads_factor<T: Numeric>(
    factor: Factor<T>,
    tokens: Seq<Token<T>>,
    at: int,
    ops: Seq<Token<T>>,
    trees: Seq<Seq<Token<T>>>,
    limit: int,
)
    requires
        holds_at(tokens, at, factor.tokens()),
        factor.array().len() <= limit,
    ensures
        run(tokens, at, ops, trees, limit) == run(
            tokens,
            at + factor.tokens().len(),
            ops,
            trees.push(factor.array()),
            limit,
        ),
    decreases factor,
{
    match factor {
        Factor::Value(v) => {
            assert(tokens[at] == factor.tokens()[0]);
            assert(action_for(tokens[at], top_of(ops), trees.len()) == Action::PushLeaf);
        },
        Factor::Group(sum) => {
            let open = Token::<T>::Op(Operator::IN);
            let close = Token::<T>::Op(Operator::OUT);
            let inner = sum.tokens();
            lemma_holds_parts(tokens, at, seq![open], inner, seq![close]);
            assert(tokens[at] == seq![open][0]);
            assert(action_for(tokens[at], top_of(ops), trees.len()) == Action::PushOperator);
            let in_group = ops.push(open);
            lemma_reads_sum(*sum, tokens, at + 1, in_group, trees, limit);
            let end = at + 1 + inner.len();
            assert(tokens[end] == seq![close][0]);
            lemma_reduces_sum(*sum, tokens, end, in_group, trees, limit);
            assert(top_of(in_group) == Some(open));
            assert(action_for(tokens[end], top_of(in_group), trees.push(sum.array()).len())
                == Action::CloseGroup);
            assert(in_group.drop_last() == ops);
        },
    }
}

/// The parser reads a product into one tree for each factor, and holds back
/// the `*` between them.
proof fn lemma_reads_product<T: Numeric>(
    product: Product<T>,
    tokens: Seq<Token<T>>,
    at: int,
    ops: Seq<Token<T>>,
    trees: Seq<Seq<Token<T>>>,
    limit: int,
)
    requires
        holds_at(tokens, at, product.tokens()),
        product.array().len() <= limit,
    ensures
        run(tokens, at, ops, trees, limit) == run(
            tokens,
            at + product.tokens().len(),
            ops + product.held_ops(),
            trees + product.held_trees(),
            limit,
        ),
    decreases product,
{
    match product {
        Product::Last(factor) => {
            lemma_reads_factor(factor, tokens, at, ops, trees, limit);
            assert(ops + product.held_ops() == ops);
            assert(trees + product.held_trees() == trees.push(factor.array()));
        },
        Product::Times(factor, rest) => {
            let times = Token::<T>::Op(Operator::MUL);
            lemma_holds_parts(tokens, at, factor.tokens(), seq![times], rest.tokens());
            lemma_reads_factor(factor, tokens, at, ops, trees, limit);
            let mid = at + factor.tokens().len();
            assert(tokens[mid] == seq![times][0]);
            let below_trees = trees.push(factor.array());
            assert(action_for(tokens[mid], top_of(ops), below_trees.len())
                == Action::PushOperator);
            let below_ops = ops.push(times);
            lemma_reads_product(*rest, tokens, mid + 1, below_ops, below_trees, limit);
            assert(ops + product.held_ops() == below_ops + rest.held_ops());
            assert(trees + product.held_trees() == below_trees + rest.held_trees());
        },
    }
}

/// The parser reads a sum, over operators that do not end in `*`, into one
/// tree for each product but the last, which it holds back as it read it,
/// and holds back the `+` between them.
proof fn lemma_reads_sum<T: Numeric>(
    sum: Sum<T>,
    tokens: Seq<Token<T>>,
    at: int,
    ops: Seq<Token<T>>,
    trees: Seq<Seq<Token<T>>>,
    limit: int,
)
    requires
        holds_at(tokens, at, sum.tokens()),
        sum.array().len() <= limit,
        top_of(ops) != Some(Token::<T>::Op(Operator::MUL)),
    ensures
        run(tokens, at, ops, trees, limit) == run(
            tokens,
            at + sum.tokens().len(),
            ops + sum.held_ops(),
            trees + sum.held_trees(),
            limit,
        ),
    decreases sum,
{
    match sum {
        Sum::Last(product) => {
            lemma_reads_product(product, tokens, at, ops, trees, limit);
        },
        Sum::Plus(product, rest) => {
            let plus = Token::<T>::Op(Operator::ADD);
            lemma_holds_parts(tokens, at, product.tokens(), seq![plus], rest.tokens());
            lemma_reads_product(product, tokens, at, ops, trees, limit);
            let mid = at + product.tokens().len();
            assert(tokens[mid] == seq![plus][0]);
            lemma_reduces_product(product, tokens, mid, ops, trees, limit);
            let below_trees = trees.push(product.array());
            assert(action_for(tokens[mid], top_of(ops), below_trees.len())
                == Action::PushOperator);
            let below_ops = ops.push(plus);
            assert(top_of(below_ops) == Some(plus));
            lemma_reads_sum(*rest, tokens, mid + 1, below_ops, below_trees, limit);
            assert(ops + sum.held_ops() == below_ops + rest.held_ops());
            assert(trees + sum.held_trees() == below_trees + rest.held_trees());
        },
    }
}

/// The tokens of a sum, closed by `=`, parse to the tree of the sum, unless
/// that tree outgrows the machine: `*` binds tighter than `+`, and what
/// stands in parentheses is read as one operand.
pub proof fn lemma_parses_sum<T: Numeric>(sum: Sum<T>)
    requires
        sum.array().len() <= usize::MAX,
    ensures
        parsed(sum.tokens().push(Token::Op(Operator::EQ))) == Some(sum.array()),
{
    let end = Token::<T>::Op(Operator::EQ);
    let tokens = sum.tokens().push(end);
    let none = Seq::<Token<T>>::empty();
    let no_trees = Seq::<Seq<Token<T>>>::empty();
    let limit = usize::MAX as int;
    assert(tokens.subrange(0, sum.tokens().len() as int) == sum.tokens());
    lemma_reads_sum(sum, tokens, 0, none, no_trees, limit);
    let at = sum.tokens().len() as int;
    assert(tokens[at] == end);
    lemma_reduces_sum(sum, tokens, at, none, no_trees, limit);
    assert(none + sum.held_ops() == sum.held_ops());
    assert(no_trees + sum.held_trees() == sum.held_trees());
    let one_tree = no_trees.push(sum.array());
    assert(action_for(tokens[at], top_of(none), one_tree.len()) == Action::Accept);
    assert(one_tree[0] == sum.array());
}

/// Visiting one run of tokens after another is visiting the two in turn.
pub proof fn lemma_folded_in_turn<T: Numeric>(a: Seq<Token<T>>, b: Seq<Token<T>>, stack: Seq<T>)
    ensures
        folded(a + b, stack) == match folded(a, stack) {
            Some(between) => folded(b, between),
            None => None,
        },
    decreases b.len(),
{
    if b.len() == 0 {
        assert(a + b == a);
    } else {
        assert((a + b).drop_last() == a + b.drop_last());
        assert((a + b).last() == b.last());
        lemma_folded_in_turn(a, b.drop_last(), stack);
    }
}

/// Visiting the one token `token`.
proof fn lemma_folded_one<T: Numeric>(token: Token<T>, stack: Seq<T>)
    ensures
        folded(seq![token], stack) == visited(stack, token),
{
    assert(seq![token].drop_last() == Seq::<Token<T>>::empty());
    assert(folded(Seq::<Token<T>>::empty(), stack) == Some(stack));
    assert(seq![token].last() == token);
}

/// The walk of the tree under the operator `op` visits the left subtree, the
/// right subtree and then the operator, and so leaves the result of the
/// operator on the values that the two subtrees leave.
proof fn lemma_evaluates_operator<T: Numeric>(
    left: Seq<Token<T>>,
    op: Operator,
    right: Seq<Token<T>>,
    x: T,
    y: T,
    stack: Seq<T>,
)
    requires
        op == Operator::ADD || op == Operator::MUL,
        whole_levels(left.len() as int),
        whole_levels(right.len() as int),
        folded(postorder_values(left, Token::Empty, 0), stack) == Some(stack.push(x)),
        folded(postorder_values(right, Token::Empty, 0), stack.push(x)) == Some(
            stack.push(x).push(y),
        ),
    ensures
        whole_levels(merged(left, Token::Op(op), right, Token::Empty).len() as int),
        folded(
            postorder_values(merged(left, Token::Op(op), right, Token::Empty), Token::Empty, 0),
            stack,
        ) == Some(
            stack.push(
                if op == Operator::ADD {
                    sum_of(x, y)
                } else {
                    product_of(x, y)
                },
            ),
        ),
{
    let empty = Token::<T>::Empty;
    let root = Token::<T>::Op(op);
    lemma_merge_postorder(left, root, right, empty);
    let l = postorder_values(left, empty, 0);
    let r = postorder_values(right, empty, 0);
    lemma_folded_in_turn(l + r, seq![root], stack);
    lemma_folded_in_turn(l, r, stack);
    let both = stack.push(x).push(y);
    lemma_folded_one(root, both);
    assert(both.drop_last().drop_last() == stack);
}

/// The walk of the tree of a factor leaves the value of the factor.
pub proof fn lemma_evaluates_factor<T: Numeric>(factor: Factor<T>, stack: Seq<T>)
    ensures
        whole_levels(factor.array().len() as int),
        folded(postorder_values(factor.array(), Token::Empty, 0), stack) == Some(
            stack.push(factor.value()),
        ),
    decreases factor,
{
    match factor {
        Factor::Value(v) => {
            let array = seq![Token::<T>::Value(v)];
            let empty = Token::<T>::Empty;
            assert(level_start(2) == 2 * level_start(1));
            assert(postorder(array, empty, 1) == Seq::<int>::empty());
            assert(postorder(array, empty, 2) == Seq::<int>::empty());
            assert(postorder(array, empty, 0) == seq![0int]);
            assert(postorder_values(array, empty, 0) == array);
            lemma_folded_one(array[0], stack);
        },
        Factor::Group(sum) => {
            lemma_evaluates_sum(*sum, stack);
        },
    }
}

/// The walk of the tree of a product leaves the value of the product.
pub proof fn lemma_evaluates_product<T: Numeric>(product: Product<T>, stack: Seq<T>)
    ensures
        whole_levels(product.array().len() as int),
        folded(postorder_values(product.array(), Token::Empty, 0), stack) == Some(
            stack.push(product.value()),
        ),
    decreases product,
{
    match product {
        Product::Last(factor) => {
            lemma_evaluates_factor(factor, stack);
        },
        Product::Times(factor, rest) => {
            lemma_evaluates_factor(factor, stack);
            lemma_evaluates_product(*rest, stack.push(factor.value()));
            lemma_evaluates_operator(
                factor.array(),
                Operator::MUL,
                rest.array(),
                factor.value(),
                rest.value(),
                stack,
            );
        },
    }
}

/// The walk of the tree of a sum leaves the value of the sum.
pub proof fn lemma_evaluates_sum<T: Numeric>(sum: Sum<T>, stack: Seq<T>)
    ensures
        whole_levels(sum.array().len() as int),
        folded(postorder_values(sum.array(), Token::Empty, 0), stack) == Some(
            stack.push(sum.value()),
        ),
    decreases sum,
{
    match sum {
        Sum::Last(product) => {
            lemma_evaluates_product(product, stack);
        },
        Sum::Plus(product, rest) => {
            lemma_evaluates_product(product, stack);
            lemma_evaluates_sum(*rest, stack.push(product.value()));
            lemma_evaluates_operator(
                product.array(),
                Operator::ADD,
                rest.array(),
                product.value(),
                rest.value(),
                stack,
            );
        },
    }
}

/// What the tokens of a sum hold: as many `(` as `)`, no `-`, and at their
/// end no `=`.
proof fn lemma_sum_tokens<T: Numeric>(sum: Sum<T>)
    ensures
        sum.tokens().len() > 0,
        sum.tokens().last() != Token::<T>::Op(Operator::EQ),
        count_of(sum.tokens(), Operator::SUB) == 0,
        count_of(sum.tokens(), Operator::IN) == count_of(sum.tokens(), Operator::OUT),
    decreases sum,
{
    match sum {
        Sum::Last(product) => {
            lemma_product_tokens(product);
        },
        Sum::Plus(product, rest) => {
            lemma_product_tokens(product);
            lemma_sum_tokens(*rest);
            lemma_joined_tokens(product.tokens(), Operator::ADD, rest.tokens());
        },
    }
}

proof fn lemma_product_tokens<T: Numeric>(product: Product<T>)
    ensures
        product.tokens().len() > 0,
        product.tokens().last() != Token::<T>::Op(Operator::EQ),
        count_of(product.tokens(), Operator::SUB) == 0,
        count_of(product.tokens(), Operator::IN) == count_of(product.tokens(), Operator::OUT),
    decreases product,
{
    match product {
        Product::Last(factor) => {
            lemma_factor_tokens(factor);
        },
        Product::Times(factor, rest) => {
            lemma_factor_tokens(factor);
            lemma_product_tokens(*rest);
            lemma_joined_tokens(factor.tokens(), Operator::MUL, rest.tokens());
        },
    }
}

proof fn lemma_factor_tokens<T: Numeric>(factor: Factor<T>)
    ensures
        factor.tokens().len() > 0,
        factor.tokens().last() != Token::<T>::Op(Operator::EQ),
        count_of(factor.tokens(), Operator::SUB) == 0,
        count_of(factor.tokens(), Operator::IN) == count_of(factor.tokens(), Operator::OUT),
    decreases factor,
{
    match factor {
        Factor::Value(v) => {
            lemma_count_of_one(Token::Value(v), Operator::SUB);
            lemma_count_of_one(Token::Value(v), Operator::IN);
            lemma_count_of_one(Token::Value(v), Operator::OUT);
        },
        Factor::Group(sum) => {
            lemma_sum_tokens(*sum);
            let open = seq![Token::<T>::Op(Operator::IN)];
            let close = seq![Token::<T>::Op(Operator::OUT)];
            lemma_count_of_one(open[0], Operator::SUB);
            lemma_count_of_one(open[0], Operator::IN);
            lemma_count_of_one(open[0], Operator::OUT);
            lemma_count_of_one(close[0], Operator::SUB);
            lemma_count_of_one(close[0], Operator::IN);
            lemma_count_of_one(close[0], Operator::OUT);
            lemma_count_of_concat(open, sum.tokens(), Operator::SUB);
            lemma_count_of_concat(open, sum.tokens(), Operator::IN);
            lemma_count_of_concat(open, sum.tokens(), Operator::OUT);
            lemma_count_of_concat(open + sum.tokens(), close, Operator::SUB);
            lemma_count_of_concat(open + sum.tokens(), close, Operator::IN);
            lemma_count_of_concat(open + sum.tokens(), close, Operator::OUT);
        },
    }
}

/// The counts over two runs of tokens joined by `+` or `*`.
proof fn lemma_joined_tokens<T: Numeric>(a: Seq<Token<T>>, op: Operator, b: Seq<Token<T>>)
    requires
        op == Operator::ADD || op == Operator::MUL,
        b.len() > 0,
    ensures
        (a + seq![Token::Op(op)] + b).last() == b.last(),
        forall|counted: Operator|
            counted != op ==> #[trigger] count_of(a + seq![Token::Op(op)] + b, counted)
                == count_of(a, counted) + count_of(b, counted),
{
    let joint = seq![Token::<T>::Op(op)];
    assert forall|counted: Operator| counted != op implies #[trigger] count_of(
        a + joint + b,
        counted,
    ) == count_of(a, counted) + count_of(b, counted) by {
        lemma_count_of_one(joint[0], counted);
        lemma_count_of_concat(a, joint, counted);
        lemma_count_of_concat(a + joint, b, counted);
    }
}

/// The tokens of a sum hold no `-`: rewriting leaves them as they are.
pub proof fn lemma_sum_stays<T: Numeric>(sum: Sum<T>, minus_one: T)
    ensures
        without_minus(sum.tokens(), minus_one) == sum.tokens(),
{
    lemma_sum_tokens(sum);
    lemma_without_minus_fixed(sum.tokens(), minus_one);
}

/// The tokens of a sum parse to the tree of the sum, as they come from the
/// scan, and the walk of that tree leaves the value of the sum: the value
/// under the usual rules, with `*` before `+` and parentheses first, and
/// each chain of equal operators taken from the right. The one sum that
/// does not parse is one whose tree outgrows the machine.
pub proof fn lemma_sum_round_trip<T: Numeric>(sum: Sum<T>)
    requires
        sum.array().len() <= usize::MAX,
    ensures
        parse_of_scanned(sum.tokens()) == Ok::<Seq<Token<T>>, ParsingFailure>(
            sum.array(),
        ),
        value_of(postorder_values(sum.array(), Token::Empty, 0)) == sum.value(),
{
    let minus_one = minus_one_of::<T>();
    lemma_sum_tokens(sum);
    lemma_without_minus_fixed(sum.tokens(), minus_one);
    let end = Token::<T>::Op(Operator::EQ);
    let ready = sum.tokens().push(end);
    assert(rectified(sum.tokens(), minus_one) == ready);
    assert(ready == sum.tokens() + seq![end]);
    lemma_count_of_one(end, Operator::IN);
    lemma_count_of_one(end, Operator::OUT);
    lemma_count_of_concat(sum.tokens(), seq![end], Operator::IN);
    lemma_count_of_concat(sum.tokens(), seq![end], Operator::OUT);
    lemma_parses_sum(sum);
    lemma_evaluates_sum(sum, Seq::empty());
}

/// Whether the sum and the product of `T` are associative.
pub open spec fn is_associative<T: Numeric>() -> bool {
    &&& forall|a: T, b: T, c: T| #[trigger] sum_of(sum_of(a, b), c) == sum_of(a, sum_of(b, c))
    &&& forall|a: T, b: T, c: T| #[trigger]
        product_of(product_of(a, b), c) == product_of(a, product_of(b, c))
}

/// With associative operators it makes no difference from which end a
/// factor's chains are taken.
pub proof fn lemma_factor_from_either_end<T: Numeric>(factor: Factor<T>)
    requires
        is_associative::<T>(),
    ensures
        factor.left_to_right() == factor.value(),
    decreases factor,
{
    match factor {
        Factor::Value(v) => {},
        Factor::Group(sum) => {
            lemma_sum_from_either_end(*sum, sum.value());
        },
    }
}

/// With associative operators it makes no difference from which end a
/// product is taken.
pub proof fn lemma_product_from_either_end<T: Numeric>(product: Product<T>, before: T)
    requires
        is_associative::<T>(),
    ensures
        product.left_to_right() == product.value(),
        product.multiplied_onto(before) == product_of(before, product.value()),
    decreases product,
{
    match product {
        Product::Last(factor) => {
            lemma_factor_from_either_end(factor);
        },
        Product::Times(factor, rest) => {
            lemma_factor_from_either_end(factor);
            lemma_product_from_either_end(*rest, factor.value());
            lemma_product_from_either_end(*rest, product_of(before, factor.value()));
            assert(product_of(product_of(before, factor.value()), rest.value()) == product_of(
                before,
                product_of(factor.value(), rest.value()),
            ));
        },
    }
}

/// With associative operators it makes no difference from which end a sum
/// is taken.
pub proof fn lemma_sum_from_either_end<T: Numeric>(sum: Sum<T>, before: T)
    requires
        is_associative::<T>(),
    ensures
        sum.left_to_right() == sum.value(),
        sum.added_onto(before) == sum_of(before, sum.value()),
    decreases sum,
{
    match sum {
        Sum::Last(product) => {
            lemma_product_from_either_end(product, product.value());
        },
        Sum::Plus(product, rest) => {
            lemma_product_from_either_end(product, product.value());
            lemma_sum_from_either_end(*rest, product.value());
            lemma_sum_from_either_end(*rest, sum_of(before, product.value()));
            assert(sum_of(sum_of(before, product.value()), rest.value()) == sum_of(
                before,
                sum_of(product.value(), rest.value()),
            ));
        },
    }
}

/// Where the sum and the product of the value type are associative, the
/// tokens of a sum parse to a tree whose walk leaves the value of the sum
/// as it is reckoned from left to right, `*` before `+` and parentheses
/// first.
pub proof fn lemma_round_trip_left_to_right<T: Numeric>(sum: Sum<T>)
    requires
        sum.array().len() <= usize::MAX,
        is_associative::<T>(),
    ensures
        parse_of_scanned(sum.tokens()) == Ok::<Seq<Token<T>>, ParsingFailure>(
            sum.array(),
        ),
        value_of(postorder_values(sum.array(), Token::Empty, 0)) == sum.left_to_right(),
{
    lemma_sum_round_trip(sum);
    lemma_sum_from_either_end(sum, sum.value());
}

} // verus!
