use crate::token::{Operator, Token};
use crate::traits::{is_functional, product_of, sum_of, zero_of, Numeric};
use crate::tree::{postorder_values, BinaryTree};
use vstd::prelude::*;

verus! {

/// The stack of values after `token` is visited: a value is pushed, `+` and
/// `*` take the two top values, the lower one as the left operand, and push
/// the result; any other token leaves the stack as it is. `None` where `+`
/// or `*` finds fewer than two values.
pub open spec fn visited<T: Numeric>(stack: Seq<T>, token: Token<T>) -> Option<Seq<T>> {
    match token {
        Token::Value(v) => Some(stack.push(v)),
        Token::Op(Operator::ADD) => if stack.len() >= 2 {
            Some(
                stack.drop_last().drop_last().push(
                    sum_of(stack[stack.len() - 2], stack[stack.len() - 1]),
                ),
            )
        } else {
            None
        },
        Token::Op(Operator::MUL) => if stack.len() >= 2 {
            Some(
                stack.drop_last().drop_last().push(
                    product_of(stack[stack.len() - 2], stack[stack.len() - 1]),
                ),
            )
        } else {
            None
        },
        _ => Some(stack),
    }
}

/// The stack after the tokens of `order` are visited one after the other,
/// starting from `stack`.
pub open spec fn folded<T: Numeric>(order: Seq<Token<T>>, stack: Seq<T>) -> Option<Seq<T>>
    decreases order.len(),
{
    if order.len() == 0 {
        Some(stack)
    } else {
        match folded(order.drop_last(), stack) {
            Some(below) => visited(below, order.last()),
            None => None,
        }
    }
}

/// The value that a walk leaves which visits the tokens of `order` one after
/// the other: what lies at the bottom of the stack. The value type's zero
/// where the walk leaves nothing, or where an operator lacks an operand.
pub open spec fn value_of<T: Numeric>(order: Seq<Token<T>>) -> T {
    match folded(order, Seq::empty()) {
        Some(stack) => if stack.len() > 0 {
            stack[0]
        } else {
            zero_of::<T>()
        },
        None => zero_of::<T>(),
    }
}

/// Once the fold has failed on a part of the order, it fails on the whole.
proof fn lemma_failure_stays<T: Numeric>(order: Seq<Token<T>>, k: int)
    requires
        0 <= k <= order.len(),
        folded(order.take(k), Seq::empty()) is None,
    ensures
        folded(order, Seq::empty()) is None,
    decreases order.len() - k,
{
    if k < order.len() {
        assert(order.take(k + 1).drop_last() == order.take(k));
        lemma_failure_stays(order, k + 1);
    } else {
        assert(order.take(k) == order);
    }
}

/// Evaluates a tree of tokens by a postorder walk from its root over a stack
/// of values.
pub fn calculate_result<T: Numeric>(parsed_term: &BinaryTree<Token<T>>) -> (result: T)
    ensures
        is_functional::<T>() ==> result == value_of(
            postorder_values(parsed_term@, parsed_term.sentinel(), 0),
        ),
{
    let visits = parsed_term.traverse_postorder(0);
    let ghost order = postorder_values(parsed_term@, parsed_term.sentinel(), 0);
    proof {
        if is_functional::<T>() {
            assert(order.len() == visits@.len());
            assert forall|i: int| 0 <= i < visits@.len() implies *(#[trigger] visits@[i]).1
                == order[i] by {}
        }
        assert(order.take(0) == Seq::<Token<T>>::empty());
    }
    let mut stack: Vec<T> = Vec::new();
    let mut i: usize = 0;
    while i < visits.len()
        invariant
            i <= visits@.len(),
            is_functional::<T>() ==> {
                &&& order.len() == visits@.len()
                &&& forall|j: int|
                    0 <= j < visits@.len() ==> *(#[trigger] visits@[j]).1 == order[j]
                &&& folded(order.take(i as int), Seq::empty()) == Some(stack@)
            },
            order == postorder_values(parsed_term@, parsed_term.sentinel(), 0),
        decreases visits@.len() - i,
    {
        proof {
            if is_functional::<T>() {
                assert(order.take(i + 1).drop_last() == order.take(i as int));
            }
        }
        match visits[i].1 {
            Token::Op(Operator::ADD) => {
                if stack.len() < 2 {
                    proof {
                        if is_functional::<T>() {
                            lemma_failure_stays(order, i + 1);
                        }
                    }
                    return T::default();
                }
                let b = stack.pop().unwrap();
                let a = stack.pop().unwrap();
                stack.push(a.add(b));
            },
            Token::Op(Operator::MUL) => {
                if stack.len() < 2 {
                    proof {
                        if is_functional::<T>() {
                            lemma_failure_stays(order, i + 1);
                        }
                    }
                    return T::default();
                }
                let b = stack.pop().unwrap();
                let a = stack.pop().unwrap();
                stack.push(a.mul(b));
            },
            Token::Value(val) => stack.push(*val),
            _ => {},
        }
        i += 1;
    }
    proof {
        if is_functional::<T>() {
            assert(order.take(i as int) == order);
        }
    }
    if stack.len() > 0 {
        stack[0]
    } else {
        T::default()
    }
}

} // verus!
