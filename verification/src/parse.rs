use crate::lexer::{match_len, scan_match};
use crate::text::{chars_of, is_pair, is_single};
use crate::token::{token_of, Operator, Token};
use crate::traits::{is_functional, negative_of, one_of, Constants, Numeric};
use crate::tree::{merged, merged_len, BinaryTree};
use vstd::prelude::*;

verus! {

/// Why a text is not an expression.
#[derive(Debug, PartialEq, Eq)]
pub enum ParsingError {
    /// The tokens do not reduce to one tree.
    EmptyTree,
    /// A part of the text is no token; it is held here.
    InvalidInput(String),
    /// The text opens and closes groups in different numbers.
    UnbalancedGroups,
}

/// A `ParsingError` with its text as a sequence of characters.
pub enum ParsingFailure {
    EmptyTree,
    InvalidInput(Seq<char>),
    UnbalancedGroups,
}

impl View for ParsingError {
    type V = ParsingFailure;

    open spec fn view(&self) -> ParsingFailure {
        match self {
            ParsingError::EmptyTree => ParsingFailure::EmptyTree,
            ParsingError::InvalidInput(text) => ParsingFailure::InvalidInput(text@),
            ParsingError::UnbalancedGroups => ParsingFailure::UnbalancedGroups,
        }
    }
}

/// The text `s` with every character that has a lowercase form replaced by
/// that form, as Unicode defines it.
pub uninterp spec fn lowercase_of(s: Seq<char>) -> Seq<char>;

/// `str::to_lowercase` of the standard library: the lowercase equivalent of
/// `s` as a new string. It is a function of the text alone; which characters
/// change, and into what, is left to it.
#[verifier::external_body]
fn lowercase(s: &str) -> (lower: String)
    ensures
        lower@ == lowercase_of(s@),
{
    s.to_lowercase()
}

/// The token that one match of the scan stands for: the constants for the
/// names `e` and `pi`, and for any other text the token that it writes.
/// `None` where it writes none.
pub open spec fn classified<T: Numeric>(text: Seq<char>, constants: Constants<T>) -> Option<
    Token<T>,
> {
    if text == seq!['e'] {
        Some(Token::Value(constants.e))
    } else if text == seq!['p', 'i'] {
        Some(Token::Value(constants.pi))
    } else {
        match token_of::<T>(text) {
            Ok(token) => Some(token),
            Err(_) => None,
        }
    }
}

/// The tokens of `s` from `at` on, read from the left: each token as long as
/// the scan finds it, and the next one sought behind it; a character at
/// which no token begins is passed over. The first match that stands for no
/// token is the error.
pub open spec fn scanned<T: Numeric>(s: Seq<char>, at: int, constants: Constants<T>) -> Result<
    Seq<Token<T>>,
    ParsingFailure,
>
    decreases (if at < s.len() { s.len() - at } else { 0 }),
{
    if at < 0 || at >= s.len() {
        Ok(Seq::empty())
    } else {
        let n = match_len(s, at);
        if n == 0 {
            scanned(s, at + 1, constants)
        } else {
            match classified(s.subrange(at, at + n), constants) {
                None => Err(ParsingFailure::InvalidInput(s.subrange(at, at + n))),
                Some(token) => match scanned(s, at + n, constants) {
                    Ok(rest) => Ok(seq![token] + rest),
                    Err(failure) => Err(failure),
                },
            }
        }
    }
}

/// The tokens `done` and then what is still to come.
pub open spec fn and_then<T: Numeric>(
    done: Seq<Token<T>>,
    rest: Result<Seq<Token<T>>, ParsingFailure>,
) -> Result<Seq<Token<T>>, ParsingFailure> {
    match rest {
        Ok(tokens) => Ok(done + tokens),
        Err(failure) => Err(failure),
    }
}

/// Reads the tokens of `text`, which is taken as it stands: a letter in
/// upper case is a letter, but `E` and `PI` name no constant.
pub fn scan_tokens<T: Numeric>(text: &str, constants: &Constants<T>) -> (r: Result<
    Vec<Token<T>>,
    ParsingError,
>)
    ensures
        r matches Err(error) ==> error matches ParsingError::InvalidInput(_),
        is_functional::<T>() ==> match scanned(text@, 0, *constants) {
            Ok(tokens) => r matches Ok(v) && v@ == tokens,
            Err(failure) => r matches Err(error) && error@ == failure,
        },
{
    let chars = chars_of(text);
    let len = chars.len();
    let mut tokens: Vec<Token<T>> = Vec::new();
    let mut at: usize = 0;
    proof {
        let all = scanned(text@, 0, *constants);
        if all is Ok {
            assert(tokens@ + all->Ok_0 == all->Ok_0);
        }
    }
    while at < len
        invariant
            at <= len,
            len == text@.len(),
            chars@ == text@,
            is_functional::<T>() ==> and_then(tokens@, scanned(text@, at as int, *constants))
                == scanned(text@, 0, *constants),
        decreases len - at,
    {
        let n = scan_match(&chars, at);
        if n == 0 {
            at += 1;
        } else {
            let part = text.substring_char(at, at + n);
            let letters = chars_of(part);
            let token = if is_single(&letters, 'e') {
                Token::Value(constants.e)
            } else if is_pair(&letters, 'p', 'i') {
                Token::Value(constants.pi)
            } else {
                match Token::<T>::from_str(part) {
                    Ok(t) => t,
                    Err(_) => {
                        return Err(ParsingError::InvalidInput(part.to_owned()));
                    },
                }
            };
            proof {
                let rest = scanned(text@, at + n, *constants);
                if rest is Ok {
                    assert(tokens@ + (seq![token] + rest->Ok_0) =~= tokens@.push(token)
                        + rest->Ok_0);
                }
            }
            tokens.push(token);
            at += n;
        }
    }
    proof {
        assert(tokens@ + Seq::<Token<T>>::empty() =~= tokens@);
    }
    Ok(tokens)
}

/// Reads the tokens of `term`, case folded first.
pub fn tokenize_term<T: Numeric>(term: &str, constants: &Constants<T>) -> (r: Result<
    Vec<Token<T>>,
    ParsingError,
>)
    ensures
        r matches Err(error) ==> error matches ParsingError::InvalidInput(_),
        is_functional::<T>() ==> match scanned(lowercase_of(term@), 0, *constants) {
            Ok(tokens) => r matches Ok(v) && v@ == tokens,
            Err(failure) => r matches Err(error) && error@ == failure,
        },
{
    let term_lower = lowercase(term);
    scan_tokens(term_lower.as_str(), constants)
}

/// How often the operator `op` stands in `tokens`.
pub open spec fn count_of<T: Numeric>(tokens: Seq<Token<T>>, op: Operator) -> nat
    decreases tokens.len(),
{
    if tokens.len() == 0 {
        0
    } else {
        count_of(tokens.drop_last(), op) + if tokens.last() == Token::<T>::Op(op) {
            1nat
        } else {
            0nat
        }
    }
}

/// Whether `tokens` opens as many groups as it closes. The order of the
/// marks is not looked at.
pub open spec fn balanced<T: Numeric>(tokens: Seq<Token<T>>) -> bool {
    count_of(tokens, Operator::IN) == count_of(tokens, Operator::OUT)
}

/// Whether the groups of `tokens` are balanced in number.
pub fn validate_term<T: Numeric>(tokens: &Vec<Token<T>>) -> (valid: bool)
    ensures
        valid == balanced(tokens@),
{
    let mut in_count: usize = 0;
    let mut out_count: usize = 0;
    let mut idx: usize = 0;
    while idx < tokens.len()
        invariant
            idx <= tokens@.len(),
            in_count == count_of(tokens@.take(idx as int), Operator::IN),
            out_count == count_of(tokens@.take(idx as int), Operator::OUT),
            in_count <= idx,
            out_count <= idx,
        decreases tokens@.len() - idx,
    {
        proof {
            assert(tokens@.take(idx + 1).drop_last() == tokens@.take(idx as int));
        }
        let t = &tokens[idx];
        if t.is_in() {
            in_count += 1;
        }
        if t.is_out() {
            out_count += 1;
        }
        idx += 1;
    }
    proof {
        assert(tokens@.take(idx as int) == tokens@);
    }
    in_count == out_count
}

/// Minus one: the negative of the identity of `T`.
pub open spec fn minus_one_of<T: Numeric>() -> T {
    negative_of(one_of::<T>())
}

/// Whether `m` is a value that negating the identity of `T` may give.
pub open spec fn is_minus_one<T: Numeric>(m: T) -> bool {
    exists|o: T| call_ensures(T::one, (), o) && call_ensures(T::neg, (o,), m)
}

/// What stands for one token once no `-` is left: `+`, `minus_one` and `*`
/// for a `-`, so that `a - b` reads `a + -1 * b`; the token itself for any
/// other.
pub open spec fn without_minus_one<T: Numeric>(token: Token<T>, minus_one: T) -> Seq<Token<T>> {
    if token == Token::<T>::Op(Operator::SUB) {
        seq![Token::Op(Operator::ADD), Token::Value(minus_one), Token::Op(Operator::MUL)]
    } else {
        seq![token]
    }
}

/// `tokens` with every `-` rewritten, wherever it stands.
pub open spec fn without_minus<T: Numeric>(tokens: Seq<Token<T>>, minus_one: T) -> Seq<Token<T>>
    decreases tokens.len(),
{
    if tokens.len() == 0 {
        Seq::empty()
    } else {
        without_minus(tokens.drop_last(), minus_one) + without_minus_one(tokens.last(), minus_one)
    }
}

/// `tokens` with a closing `=`: one is added unless the last token is one.
pub open spec fn terminated<T: Numeric>(tokens: Seq<Token<T>>) -> Seq<Token<T>> {
    if tokens.len() > 0 && tokens.last() == Token::<T>::Op(Operator::EQ) {
        tokens
    } else {
        tokens.push(Token::Op(Operator::EQ))
    }
}

/// `tokens` as the parser wants them: without `-` and closed by `=`.
pub open spec fn rectified<T: Numeric>(tokens: Seq<Token<T>>, minus_one: T) -> Seq<Token<T>> {
    terminated(without_minus(tokens, minus_one))
}

/// Rewrites every `-` as `+`, minus one and `*`, and closes the tokens with
/// `=` unless they end in one.
pub fn rectify_term<T: Numeric>(tokens: &mut Vec<Token<T>>)
    ensures
        exists|m: T| is_minus_one(m) && final(tokens)@ == rectified(old(tokens)@, m),
        is_functional::<T>() ==> final(tokens)@ == rectified(old(tokens)@, minus_one_of::<T>()),
{
    let one = T::one();
    let minus_one = one.neg();
    assert(is_minus_one(minus_one));
    let mut out: Vec<Token<T>> = Vec::new();
    let mut idx: usize = 0;
    while idx < tokens.len()
        invariant
            idx <= tokens@.len(),
            out@ == without_minus(tokens@.take(idx as int), minus_one),
        decreases tokens@.len() - idx,
    {
        proof {
            assert(tokens@.take(idx + 1).drop_last() == tokens@.take(idx as int));
        }
        let t = tokens[idx];
        if t == Operator::SUB {
            out.push(Token::add());
            out.push(Token::Value(minus_one));
            out.push(Token::mul());
        } else {
            out.push(t);
        }
        idx += 1;
    }
    proof {
        assert(tokens@.take(idx as int) == tokens@);
    }
    let closed = out.len() > 0 && out[out.len() - 1].is_eq();
    if !closed {
        out.push(Token::eq());
    }
    *tokens = out;
}

/// What the parser does for one token in one state.
#[derive(Debug, Clone, Copy, PartialEq, Eq, Structural)]
pub enum Action {
    /// Shift the token onto the operators and go on to the next one.
    PushOperator,
    /// Take the top operator, `+` or `*`, and put the two top trees under
    /// it; the token stays where it is.
    Reduce(Operator),
    /// Take the `(` off the operators and go on to the next token.
    CloseGroup,
    /// The one tree is the result.
    Accept,
    /// Shift the token as a tree of its own and go on to the next one.
    PushLeaf,
}

/// The action for `token` where `top` is the top of the operators, if there
/// is one, and `depth` the number of trees. The first that fits decides:
/// `(` and `*` are shifted; `+` reduces a `*` below it and is shifted
/// otherwise; `)` reduces a `+` or a `*` below it and closes a `(`; `=`
/// reduces a `+` or a `*` and accepts one tree with no operator left. A
/// reduction needs two trees. Whatever is left, a value among it, becomes a
/// tree.
pub open spec fn action_for<T: Numeric>(
    token: Token<T>,
    top: Option<Token<T>>,
    depth: nat,
) -> Action {
    let add = Token::<T>::Op(Operator::ADD);
    let mul = Token::<T>::Op(Operator::MUL);
    let open = Token::<T>::Op(Operator::IN);
    let close = Token::<T>::Op(Operator::OUT);
    let end = Token::<T>::Op(Operator::EQ);
    if token == open || token == mul {
        Action::PushOperator
    } else if token == add && top == Some(mul) && depth >= 2 {
        Action::Reduce(Operator::MUL)
    } else if token == add {
        Action::PushOperator
    } else if token == close && top == Some(add) && depth >= 2 {
        Action::Reduce(Operator::ADD)
    } else if token == close && top == Some(mul) && depth >= 2 {
        Action::Reduce(Operator::MUL)
    } else if token == close && top == Some(open) {
        Action::CloseGroup
    } else if token == end && top == Some(add) && depth >= 2 {
        Action::Reduce(Operator::ADD)
    } else if token == end && top == Some(mul) && depth >= 2 {
        Action::Reduce(Operator::MUL)
    } else if token == end && top is None && depth == 1 {
        Action::Accept
    } else {
        Action::PushLeaf
    }
}

/// The top of a stack, if it has one.
pub open spec fn top_of<A>(stack: Seq<A>) -> Option<A> {
    if stack.len() > 0 {
        Some(stack.last())
    } else {
        None
    }
}

/// The array of the tree that the parser reaches from `tokens[at..]` with
/// the operators `ops` and the trees `trees` on its stacks, each tree as its
/// array; `None` where the tokens run out first, or where a tree would take
/// more than `limit` slots.
pub open spec fn run<T: Numeric>(
    tokens: Seq<Token<T>>,
    at: int,
    ops: Seq<Token<T>>,
    trees: Seq<Seq<Token<T>>>,
    limit: int,
) -> Option<Seq<Token<T>>>
    decreases tokens.len() - at, ops.len(),
{
    if at < 0 || at >= tokens.len() {
        None
    } else {
        match action_for(tokens[at], top_of(ops), trees.len()) {
            Action::PushOperator => run(tokens, at + 1, ops.push(tokens[at]), trees, limit),
            Action::Reduce(op) => {
                let left = trees[trees.len() - 2];
                let right = trees[trees.len() - 1];
                if merged_len(left.len() as int, right.len() as int) > limit {
                    None
                } else {
                    run(
                        tokens,
                        at,
                        ops.drop_last(),
                        trees.drop_last().drop_last().push(
                            merged(left, Token::Op(op), right, Token::Empty),
                        ),
                        limit,
                    )
                }
            },
            Action::CloseGroup => run(tokens, at + 1, ops.drop_last(), trees, limit),
            Action::Accept => Some(trees[0]),
            Action::PushLeaf => run(tokens, at + 1, ops, trees.push(seq![tokens[at]]), limit),
        }
    }
}

/// The array of the tree that `tokens` parse to, if they do.
pub open spec fn parsed<T: Numeric>(tokens: Seq<Token<T>>) -> Option<Seq<Token<T>>> {
    run(tokens, 0, Seq::empty(), Seq::empty(), usize::MAX as int)
}

/// Decides what to do for `token` from the top of the operators and the
/// number of trees.
pub fn decide<T: Numeric>(token: &Token<T>, top: Option<&Token<T>>, depth: usize) -> (action:
    Action)
    ensures
        action == action_for(
            *token,
            match top {
                Some(t) => Some(*t),
                None => None,
            },
            depth as nat,
        ),
{
    let over_add = match top {
        Some(t) => t.is_add(),
        None => false,
    };
    let over_mul = match top {
        Some(t) => t.is_mul(),
        None => false,
    };
    let over_open = match top {
        Some(t) => t.is_in(),
        None => false,
    };
    if token.is_in() || token.is_mul() {
        Action::PushOperator
    } else if token.is_add() && over_mul && depth >= 2 {
        Action::Reduce(Operator::MUL)
    } else if token.is_add() {
        Action::PushOperator
    } else if token.is_out() && over_add && depth >= 2 {
        Action::Reduce(Operator::ADD)
    } else if token.is_out() && over_mul && depth >= 2 {
        Action::Reduce(Operator::MUL)
    } else if token.is_out() && over_open {
        Action::CloseGroup
    } else if token.is_eq() && over_add && depth >= 2 {
        Action::Reduce(Operator::ADD)
    } else if token.is_eq() && over_mul && depth >= 2 {
        Action::Reduce(Operator::MUL)
    } else if token.is_eq() && top.is_none() && depth == 1 {
        Action::Accept
    } else {
        Action::PushLeaf
    }
}

/// The arrays of the trees of a stack.
pub open spec fn arrays_of<T: Numeric>(trees: Seq<BinaryTree<Token<T>>>) -> Seq<Seq<Token<T>>> {
    trees.map_values(|tree: BinaryTree<Token<T>>| tree@)
}

/// Parses rectified tokens into one tree by shifting and reducing. It fails
/// where the tokens run out before one tree is accepted, and where a tree
/// would outgrow the machine.
pub fn parse_tokens<T: Numeric>(tokens: &Vec<Token<T>>) -> (r: Result<
    BinaryTree<Token<T>>,
    ParsingError,
>)
    ensures
        match parsed(tokens@) {
            Some(array) => r matches Ok(tree) && tree@ == array && tree.sentinel()
                == Token::<T>::Empty,
            None => r matches Err(ParsingError::EmptyTree),
        },
{
    let mut s1: Vec<Token<T>> = Vec::new();
    let mut s2: Vec<BinaryTree<Token<T>>> = Vec::new();
    let mut idx: usize = 0;
    proof {
        assert(arrays_of(s2@) == Seq::<Seq<Token<T>>>::empty());
    }
    while idx < tokens.len()
        invariant
            idx <= tokens@.len(),
            run(tokens@, idx as int, s1@, arrays_of(s2@), usize::MAX as int) == parsed(tokens@),
            forall|i: int|
                0 <= i < s2@.len() ==> (#[trigger] s2@[i]).sentinel() == Token::<T>::Empty,
        decreases tokens@.len() - idx, s1@.len(),
    {
        let top = if s1.len() > 0 {
            Some(&s1[s1.len() - 1])
        } else {
            None
        };
        let ghost trees = arrays_of(s2@);
        match decide(&tokens[idx], top, s2.len()) {
            Action::PushOperator => {
                s1.push(tokens[idx]);
                idx += 1;
            },
            Action::Reduce(op) => {
                s1.pop();
                let y = s2.pop().unwrap();
                let mut x = s2.pop().unwrap();
                proof {
                    assert(x@ == trees[trees.len() - 2]);
                    assert(y@ == trees[trees.len() - 1]);
                }
                let longest = if x.len() >= y.len() {
                    x.len()
                } else {
                    y.len()
                };
                if longest > (usize::MAX - 1) / 2 {
                    return Err(ParsingError::EmptyTree);
                }
                let ghost left = x@;
                x.bin(Token::Op(op), y);
                proof {
                    assert(x@ =~= merged(left, Token::Op(op), y@, Token::Empty));
                    assert(arrays_of(s2@.push(x)) =~= trees.drop_last().drop_last().push(x@));
                }
                s2.push(x);
            },
            Action::CloseGroup => {
                s1.pop();
                idx += 1;
            },
            Action::Accept => {
                proof {
                    assert(s2@[0]@ == trees[0]);
                }
                let tree = s2.pop().unwrap();
                return Ok(tree);
            },
            Action::PushLeaf => {
                let leaf = BinaryTree::new_with_root(tokens[idx], Token::Empty);
                proof {
                    assert(arrays_of(s2@.push(leaf)) =~= trees.push(seq![tokens@[idx as int]]));
                }
                s2.push(leaf);
                idx += 1;
            },
        }
    }
    Err(ParsingError::EmptyTree)
}

/// What the text `text`, already case folded, parses to: the array of its
/// tree, or the first thing that is wrong with it. A part that is no token
/// comes first, then groups that do not balance, then tokens that do not
/// make one tree.
pub open spec fn parse_of<T: Numeric>(text: Seq<char>, constants: Constants<T>) -> Result<
    Seq<Token<T>>,
    ParsingFailure,
> {
    match scanned(text, 0, constants) {
        Err(failure) => Err(failure),
        Ok(tokens) => parse_of_scanned(tokens),
    }
}

/// What tokens parse to as they come from the scan.
pub open spec fn parse_of_scanned<T: Numeric>(tokens: Seq<Token<T>>) -> Result<
    Seq<Token<T>>,
    ParsingFailure,
> {
    let ready = rectified(tokens, minus_one_of::<T>());
    if !balanced(ready) {
        Err(ParsingFailure::UnbalancedGroups)
    } else {
        match parsed(ready) {
            Some(array) => Ok(array),
            None => Err(ParsingFailure::EmptyTree),
        }
    }
}

/// Parses tokens as they come from the scan: rectifies them, checks that
/// their groups balance, and reduces them to one tree.
pub fn parse_scanned<T: Numeric>(tokens: Vec<Token<T>>) -> (r: Result<
    BinaryTree<Token<T>>,
    ParsingError,
>)
    ensures
        r matches Err(error) ==> error == ParsingError::UnbalancedGroups || error
            == ParsingError::EmptyTree,
        is_functional::<T>() ==> match parse_of_scanned(tokens@) {
            Ok(array) => r matches Ok(tree) && tree@ == array && tree.sentinel()
                == Token::<T>::Empty,
            Err(failure) => r matches Err(error) && error@ == failure,
        },
{
    let mut tokens = tokens;
    rectify_term(&mut tokens);
    if !validate_term(&tokens) {
        return Err(ParsingError::UnbalancedGroups);
    }
    parse_tokens(&tokens)
}

/// Parses the expression `term` into a tree of tokens.
pub fn parse_term<T: Numeric>(term: &str, constants: &Constants<T>) -> (r: Result<
    BinaryTree<Token<T>>,
    ParsingError,
>)
    ensures
        is_functional::<T>() ==> match parse_of(lowercase_of(term@), *constants) {
            Ok(array) => r matches Ok(tree) && tree@ == array && tree.sentinel()
                == Token::<T>::Empty,
            Err(failure) => r matches Err(error) && error@ == failure,
        },
{
    match tokenize_term(term, constants) {
        Ok(tokens) => parse_scanned(tokens),
        Err(error) => Err(error),
    }
}

/// A closing `=` is added once only: tokens that are closed stay as they
/// are.
pub proof fn lemma_terminated_once<T: Numeric>(tokens: Seq<Token<T>>)
    ensures
        terminated(terminated(tokens)) == terminated(tokens),
        terminated(tokens).len() > 0,
        terminated(tokens).last() == Token::<T>::Op(Operator::EQ),
{
}

/// The count over one token.
pub proof fn lemma_count_of_one<T: Numeric>(token: Token<T>, op: Operator)
    ensures
        count_of(seq![token], op) == if token == Token::<T>::Op(op) {
            1nat
        } else {
            0nat
        },
{
    assert(seq![token].drop_last() == Seq::<Token<T>>::empty());
    assert(count_of(Seq::<Token<T>>::empty(), op) == 0);
    assert(seq![token].last() == token);
}

/// The count over two runs of tokens is the sum of the counts.
pub proof fn lemma_count_of_concat<T: Numeric>(a: Seq<Token<T>>, b: Seq<Token<T>>, op: Operator)
    ensures
        count_of(a + b, op) == count_of(a, op) + count_of(b, op),
    decreases b.len(),
{
    if b.len() == 0 {
        assert(a + b == a);
    } else {
        assert((a + b).drop_last() == a + b.drop_last());
        lemma_count_of_concat(a, b.drop_last(), op);
    }
}

/// No `-` is left once the tokens are rewritten.
pub proof fn lemma_without_minus_has_none<T: Numeric>(tokens: Seq<Token<T>>, minus_one: T)
    ensures
        count_of(without_minus(tokens, minus_one), Operator::SUB) == 0,
    decreases tokens.len(),
{
    if tokens.len() > 0 {
        lemma_without_minus_has_none(tokens.drop_last(), minus_one);
        lemma_count_of_concat(
            without_minus(tokens.drop_last(), minus_one),
            without_minus_one(tokens.last(), minus_one),
            Operator::SUB,
        );
        if tokens.last() == Token::<T>::Op(Operator::SUB) {
            let plus = seq![Token::<T>::Op(Operator::ADD)];
            let factor = seq![Token::<T>::Value(minus_one)];
            let times = seq![Token::<T>::Op(Operator::MUL)];
            assert(without_minus_one(tokens.last(), minus_one) == plus + factor + times);
            lemma_count_of_one(Token::<T>::Op(Operator::ADD), Operator::SUB);
            lemma_count_of_one(Token::<T>::Value(minus_one), Operator::SUB);
            lemma_count_of_one(Token::<T>::Op(Operator::MUL), Operator::SUB);
            lemma_count_of_concat(plus, factor, Operator::SUB);
            lemma_count_of_concat(plus + factor, times, Operator::SUB);
        } else {
            lemma_count_of_one(tokens.last(), Operator::SUB);
        }
    }
}

/// Tokens without `-` are rewritten into themselves.
pub proof fn lemma_without_minus_fixed<T: Numeric>(tokens: Seq<Token<T>>, minus_one: T)
    requires
        count_of(tokens, Operator::SUB) == 0,
    ensures
        without_minus(tokens, minus_one) == tokens,
    decreases tokens.len(),
{
    if tokens.len() > 0 {
        lemma_without_minus_fixed(tokens.drop_last(), minus_one);
        assert(tokens.drop_last() + seq![tokens.last()] == tokens);
    }
}

/// Rectified tokens are rectified into themselves: nothing is rewritten a
/// second time, and no second `=` is added.
pub proof fn lemma_rectified_once<T: Numeric>(tokens: Seq<Token<T>>, minus_one: T)
    ensures
        rectified(rectified(tokens, minus_one), minus_one) == rectified(tokens, minus_one),
{
    let plain = without_minus(tokens, minus_one);
    lemma_without_minus_has_none(tokens, minus_one);
    let closed = terminated(plain);
    if closed != plain {
        assert(closed.drop_last() == plain);
    }
    lemma_without_minus_fixed(closed, minus_one);
}

} // verus!
