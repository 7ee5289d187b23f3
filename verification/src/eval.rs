//! Recursive evaluation of a syntax tree to a 64-bit integer, folding each
//! operator chain from the left and surfacing division by zero and overflow.

use vstd::prelude::*;
use crate::ast::{AddLinkView, AddOp, MulLinkView, MulOp, Node, NodeView, UnaryOp, add_links_view,
    lemma_links_view_index, mul_links_view, node_view, node_wf};
use crate::codec::{roman_to_int, scan_value};
use crate::parser::{Pair, pair_wf};

verus! {

/// Error raised during evaluation.
#[derive(Clone, Copy, Debug, PartialEq, Eq, Structural)]
pub enum EvalError {
    /// The right operand of `/` evaluated to zero.
    DivisionByZero,
    /// An intermediate result left the 64-bit signed range.
    Overflow,
}

/// Outcome of evaluating a subtree: a value, or the error that stops the
/// evaluation first in left-to-right, depth-first order.
pub enum EvalOutcome {
    Value(int),
    DivisionByZero,
    Overflow,
}

/// Whether `v` fits the evaluator's 64-bit signed arithmetic.
pub open spec fn fits_i64(v: int) -> bool {
    i64::MIN <= v <= i64::MAX
}

/// Division truncating toward zero, as 64-bit signed division does.
pub open spec fn trunc_div(a: int, b: int) -> int
    recommends
        b != 0,
{
    if a >= 0 && b > 0 {
        a / b
    } else if a >= 0 {
        -(a / -b)
    } else if b > 0 {
        -(-a / b)
    } else {
        -a / -b
    }
}

/// Folds a `term` chain from the left over an already-evaluated first
/// operand; stops at the first error.
pub open spec fn add_chain(acc: EvalOutcome, rest: Seq<AddLinkView>) -> EvalOutcome
    decreases rest,
{
    match acc {
        EvalOutcome::Value(x) => {
            if rest.len() == 0 {
                acc
            } else {
                match eval_node_spec(rest[0].operand) {
                    EvalOutcome::Value(y) => {
                        let z = if rest[0].op is Plus {
                            x + y
                        } else {
                            x - y
                        };
                        if fits_i64(z) {
                            add_chain(EvalOutcome::Value(z), rest.drop_first())
                        } else {
                            EvalOutcome::Overflow
                        }
                    },
                    e => e,
                }
            }
        },
        e => e,
    }
}

/// Folds a `strong_term` chain from the left; `*` and `/` bind tighter than
/// `+` and `-` purely through the tree shape, and a zero divisor stops the
/// fold with a division error.
pub open spec fn mul_chain(acc: EvalOutcome, rest: Seq<MulLinkView>) -> EvalOutcome
    decreases rest,
{
    match acc {
        EvalOutcome::Value(x) => {
            if rest.len() == 0 {
                acc
            } else {
                match eval_node_spec(rest[0].operand) {
                    EvalOutcome::Value(y) => {
                        if rest[0].op is Divide && y == 0 {
                            EvalOutcome::DivisionByZero
                        } else {
                            let z = if rest[0].op is Times {
                                x * y
                            } else {
                                trunc_div(x, y)
                            };
                            if fits_i64(z) {
                                mul_chain(EvalOutcome::Value(z), rest.drop_first())
                            } else {
                                EvalOutcome::Overflow
                            }
                        }
                    },
                    e => e,
                }
            }
        },
        e => e,
    }
}

/// The value of a subtree: numeral leaves decode by the subtractive scan,
/// wrapper rules pass their child through, a unary minus negates, and the
/// operator chains fold from the left.
pub open spec fn eval_node_spec(v: NodeView) -> EvalOutcome
    decreases v,
{
    match v {
        NodeView::Program { body } => eval_node_spec(*body),
        NodeView::Expr { body } => eval_node_spec(*body),
        NodeView::Group { body } => eval_node_spec(*body),
        NodeView::Roman { text } => EvalOutcome::Value(scan_value(text)),
        NodeView::Factor { sign, operand } => {
            match eval_node_spec(*operand) {
                EvalOutcome::Value(x) => {
                    if sign == Some(UnaryOp::Minus) {
                        if fits_i64(-x) {
                            EvalOutcome::Value(-x)
                        } else {
                            EvalOutcome::Overflow
                        }
                    } else {
                        EvalOutcome::Value(x)
                    }
                },
                e => e,
            }
        },
        NodeView::Term { first, rest } => add_chain(eval_node_spec(*first), rest),
        NodeView::StrongTerm { first, rest } => mul_chain(eval_node_spec(*first), rest),
    }
}

/// Whether the executable result `r` is the one the outcome `o` calls for.
pub open spec fn matches_outcome(r: Result<i64, EvalError>, o: EvalOutcome) -> bool {
    match o {
        EvalOutcome::Value(v) => r is Ok && r->Ok_0 as int == v,
        EvalOutcome::DivisionByZero => r == Result::<i64, EvalError>::Err(
            EvalError::DivisionByZero,
        ),
        EvalOutcome::Overflow => r == Result::<i64, EvalError>::Err(EvalError::Overflow),
    }
}

/// Evaluates one subtree.
pub fn eval_node(n: &Node) -> (r: Result<i64, EvalError>)
    requires
        node_wf(n@),
    ensures
        matches_outcome(r, eval_node_spec(n@)),
    decreases *n,
{
    match n {
        Node::Program { body } => eval_node(body),
        Node::Expr { body } => eval_node(body),
        Node::Group { body } => eval_node(body),
        Node::Roman { text } => {
            let v = roman_to_int(text.as_str());
            Ok(v as i64)
        },
        Node::Factor { sign, operand } => {
            match eval_node(operand) {
                Err(e) => Err(e),
                Ok(x) => match sign {
                    Some(UnaryOp::Minus) => {
                        match 0i64.checked_sub(x) {
                            Some(y) => Ok(y),
                            None => Err(EvalError::Overflow),
                        }
                    },
                    _ => Ok(x),
                },
            }
        },
        Node::Term { first, rest } => {
            proof {
                assert(*n == Node::Term { first: *first, rest: *rest });
            }
            let ghost links = add_links_view(rest@);
            let ghost target = eval_node_spec(n@);
            proof {
                lemma_links_view_index(rest@, Seq::empty());
                assert(n@ == (NodeView::Term {
                    first: Box::new(node_view(**first)),
                    rest: links,
                }));
            }
            let mut acc: i64 = match eval_node(first) {
                Ok(v) => v,
                Err(e) => {
                    proof {
                        assert(eval_node_spec(n@) == add_chain(
                            eval_node_spec(node_view(**first)),
                            links,
                        ));
                        assert(!(eval_node_spec(node_view(**first)) is Value));
                        assert(eval_node_spec(n@) == eval_node_spec(node_view(**first)));
                    }
                    return Err(e);
                },
            };
            proof {
                assert(links.skip(0) =~= links);
            }
            let mut k: usize = 0;
            while k < rest.len()
                invariant
                    node_wf(n@),
                    *n == (Node::Term { first: *first, rest: *rest }),
                    n@ == (NodeView::Term { first: Box::new(node_view(**first)), rest: links }),
                    links.len() == rest@.len(),
                    k <= rest.len(),
                    target == eval_node_spec(n@),
                    add_chain(EvalOutcome::Value(acc as int), links.skip(k as int)) == target,
                decreases rest.len() - k,
            {
                proof {
                    lemma_links_view_index(rest@, Seq::empty());
                    assert(links.skip(k as int)[0] == links[k as int]);
                    assert(links.skip(k as int).drop_first() =~= links.skip(k as int + 1));
                }
                let link = &rest[k];
                proof {
                    vstd::std_specs::vec::axiom_vec_index_decreases(*rest, k as int);
                    assert((*n)->Term_rest == *rest);
                    assert(decreases_to!(*n => (*n)->Term_rest));
                    assert(decreases_to!(rest@[k as int] => rest@[k as int].operand));
                    assert(node_wf(links[k as int].operand));
                }
                let y: i64 = match eval_node(&link.operand) {
                    Ok(v) => v,
                    Err(e) => {
                        return Err(e);
                    },
                };
                let step = match link.op {
                    AddOp::Plus => acc.checked_add(y),
                    AddOp::Minus => acc.checked_sub(y),
                };
                match step {
                    Some(v) => {
                        acc = v;
                    },
                    None => {
                        return Err(EvalError::Overflow);
                    },
                }
                k = k + 1;
            }
            proof {
                assert(links.skip(k as int) =~= Seq::<AddLinkView>::empty());
            }
            Ok(acc)
        },
        Node::StrongTerm { first, rest } => {
            proof {
                assert(*n == Node::StrongTerm { first: *first, rest: *rest });
            }
            let ghost links = mul_links_view(rest@);
            let ghost target = eval_node_spec(n@);
            proof {
                lemma_links_view_index(Seq::empty(), rest@);
                assert(n@ == (NodeView::StrongTerm {
                    first: Box::new(node_view(**first)),
                    rest: links,
                }));
            }
            let mut acc: i64 = match eval_node(first) {
                Ok(v) => v,
                Err(e) => {
                    proof {
                        assert(eval_node_spec(n@) == mul_chain(
                            eval_node_spec(node_view(**first)),
                            links,
                        ));
                        assert(!(eval_node_spec(node_view(**first)) is Value));
                        assert(eval_node_spec(n@) == eval_node_spec(node_view(**first)));
                    }
                    return Err(e);
                },
            };
            proof {
                assert(links.skip(0) =~= links);
            }
            let mut k: usize = 0;
            while k < rest.len()
                invariant
                    node_wf(n@),
                    *n == (Node::StrongTerm { first: *first, rest: *rest }),
                    n@ == (NodeView::StrongTerm {
                        first: Box::new(node_view(**first)),
                        rest: links,
                    }),
                    links.len() == rest@.len(),
                    k <= rest.len(),
                    target == eval_node_spec(n@),
                    mul_chain(EvalOutcome::Value(acc as int), links.skip(k as int)) == target,
                decreases rest.len() - k,
            {
                proof {
                    lemma_links_view_index(Seq::empty(), rest@);
                    assert(links.skip(k as int)[0] == links[k as int]);
                    assert(links.skip(k as int).drop_first() =~= links.skip(k as int + 1));
                }
                let link = &rest[k];
                proof {
                    vstd::std_specs::vec::axiom_vec_index_decreases(*rest, k as int);
                    assert((*n)->StrongTerm_rest == *rest);
                    assert(decreases_to!(*n => (*n)->StrongTerm_rest));
                    assert(decreases_to!(rest@[k as int] => rest@[k as int].operand));
                    assert(node_wf(links[k as int].operand));
                }
                let y: i64 = match eval_node(&link.operand) {
                    Ok(v) => v,
                    Err(e) => {
                        return Err(e);
                    },
                };
                match link.op {
                    MulOp::Times => {
                        match acc.checked_mul(y) {
                            Some(v) => {
                                acc = v;
                            },
                            None => {
                                return Err(EvalError::Overflow);
                            },
                        }
                    },
                    MulOp::Divide => {
                        if y == 0 {
                            return Err(EvalError::DivisionByZero);
                        }
                        match acc.checked_div(y) {
                            Some(v) => {
                                proof {
                                    assert(v as int == trunc_div(acc as int, y as int));
                                }
                                acc = v;
                            },
                            None => {
                                return Err(EvalError::Overflow);
                            },
                        }
                    },
                }
                k = k + 1;
            }
            proof {
                assert(links.skip(k as int) =~= Seq::<MulLinkView>::empty());
            }
            Ok(acc)
        },
    }
}


/// Evaluates the tree a parsed pair carries. The pair must come from a
/// parse of a tree-producing rule, as every pair `Grammar::parse` returns
/// for one does.
pub fn eval(pair: &Pair) -> (r: Result<i64, EvalError>)
    requires
        pair@.node is Some,
        pair_wf(pair@),
    ensures
        matches_outcome(r, eval_node_spec(pair@.node->0)),
{
    match &pair.node {
        Some(n) => eval_node(n),
        None => {
            proof {
                assert(false);
            }
            Err(EvalError::Overflow)
        },
    }
}

} // verus!
