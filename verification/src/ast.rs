//! Grammar rules and the syntax tree the parser produces: one node case per
//! grammar rule, each carrying its children (and, for numerals, the span).

use vstd::prelude::*;
use crate::codec::is_canonical_roman;

verus! {

/// The named syntactic categories of the numeral-arithmetic grammar.
#[allow(non_camel_case_types)]
#[derive(Clone, Copy, Debug, PartialEq, Eq, Structural)]
pub enum Rule {
    program,
    expr,
    term,
    strong_term,
    factor,
    group,
    roman,
    roman_thousands,
    roman_hundreds,
    roman_tens,
    roman_units,
    operator_add,
    operator_mul,
    operator_unary,
}

/// An additive operator: `+` or `-`.
#[derive(Clone, Copy, Debug, PartialEq, Eq, Structural)]
pub enum AddOp {
    Plus,
    Minus,
}

/// A multiplicative operator: `*` or `/`.
#[derive(Clone, Copy, Debug, PartialEq, Eq, Structural)]
pub enum MulOp {
    Times,
    Divide,
}

/// A unary operator: `+` or `-`.
#[derive(Clone, Copy, Debug, PartialEq, Eq, Structural)]
pub enum UnaryOp {
    Plus,
    Minus,
}

/// One `(operator_add, strong_term)` step of a `term` chain.
#[derive(Debug, PartialEq)]
pub struct AddLink {
    pub op: AddOp,
    pub operand: Node,
}

/// One `(operator_mul, factor)` step of a `strong_term` chain.
#[derive(Debug, PartialEq)]
pub struct MulLink {
    pub op: MulOp,
    pub operand: Node,
}

/// A node of the syntax tree, one case per grammar rule that produces a
/// subtree. Chains under `term` and `strong_term` are kept flat and in
/// source order, so evaluation folds them from the left.
#[derive(Debug, PartialEq)]
pub enum Node {
    Program { body: Box<Node> },
    Expr { body: Box<Node> },
    Term { first: Box<Node>, rest: Vec<AddLink> },
    StrongTerm { first: Box<Node>, rest: Vec<MulLink> },
    Factor { sign: Option<UnaryOp>, operand: Box<Node> },
    Group { body: Box<Node> },
    Roman { text: String },
}

/// Mathematical image of an `AddLink`.
pub struct AddLinkView {
    pub op: AddOp,
    pub operand: NodeView,
}

/// Mathematical image of a `MulLink`.
pub struct MulLinkView {
    pub op: MulOp,
    pub operand: NodeView,
}

/// Mathematical image of a `Node`: the same shape over `Seq`.
pub enum NodeView {
    Program { body: Box<NodeView> },
    Expr { body: Box<NodeView> },
    Term { first: Box<NodeView>, rest: Seq<AddLinkView> },
    StrongTerm { first: Box<NodeView>, rest: Seq<MulLinkView> },
    Factor { sign: Option<UnaryOp>, operand: Box<NodeView> },
    Group { body: Box<NodeView> },
    Roman { text: Seq<char> },
}

/// Image of a sequence of `term` chain steps.
pub open spec fn add_links_view(ls: Seq<AddLink>) -> Seq<AddLinkView>
    decreases ls,
{
    if ls.len() == 0 {
        Seq::empty()
    } else {
        seq![AddLinkView { op: ls[0].op, operand: node_view(ls[0].operand) }] + add_links_view(
            ls.drop_first(),
        )
    }
}

/// Image of a sequence of `strong_term` chain steps.
pub open spec fn mul_links_view(ls: Seq<MulLink>) -> Seq<MulLinkView>
    decreases ls,
{
    if ls.len() == 0 {
        Seq::empty()
    } else {
        seq![MulLinkView { op: ls[0].op, operand: node_view(ls[0].operand) }] + mul_links_view(
            ls.drop_first(),
        )
    }
}

/// Image of a `Node`.
pub open spec fn node_view(n: Node) -> NodeView
    decreases n,
{
    match n {
        Node::Program { body } => NodeView::Program { body: Box::new(node_view(*body)) },
        Node::Expr { body } => NodeView::Expr { body: Box::new(node_view(*body)) },
        Node::Term { first, rest } => NodeView::Term {
            first: Box::new(node_view(*first)),
            rest: add_links_view(rest@),
        },
        Node::StrongTerm { first, rest } => NodeView::StrongTerm {
            first: Box::new(node_view(*first)),
            rest: mul_links_view(rest@),
        },
        Node::Factor { sign, operand } => NodeView::Factor {
            sign,
            operand: Box::new(node_view(*operand)),
        },
        Node::Group { body } => NodeView::Group { body: Box::new(node_view(*body)) },
        Node::Roman { text } => NodeView::Roman { text: text@ },
    }
}

impl View for Node {
    type V = NodeView;

    open spec fn view(&self) -> NodeView {
        node_view(*self)
    }
}

proof fn lemma_add_links_view(ls: Seq<AddLink>)
    ensures
        add_links_view(ls).len() == ls.len(),
        forall|i: int|
            0 <= i < ls.len() ==> #[trigger] add_links_view(ls)[i] == (AddLinkView {
                op: ls[i].op,
                operand: node_view(ls[i].operand),
            }),
    decreases ls,
{
    if ls.len() > 0 {
        lemma_add_links_view(ls.drop_first());
    }
}

proof fn lemma_mul_links_view(ls: Seq<MulLink>)
    ensures
        mul_links_view(ls).len() == ls.len(),
        forall|i: int|
            0 <= i < ls.len() ==> #[trigger] mul_links_view(ls)[i] == (MulLinkView {
                op: ls[i].op,
                operand: node_view(ls[i].operand),
            }),
    decreases ls,
{
    if ls.len() > 0 {
        lemma_mul_links_view(ls.drop_first());
    }
}

/// The facts about `add_links_view` and `mul_links_view` that chain proofs
/// use: length preservation and pointwise images.
pub broadcast proof fn lemma_links_view_index(ls: Seq<AddLink>, ms: Seq<MulLink>)
    ensures
        (#[trigger] add_links_view(ls)).len() == ls.len(),
        (#[trigger] mul_links_view(ms)).len() == ms.len(),
        forall|i: int|
            0 <= i < ls.len() ==> #[trigger] add_links_view(ls)[i] == (AddLinkView {
                op: ls[i].op,
                operand: node_view(ls[i].operand),
            }),
        forall|i: int|
            0 <= i < ms.len() ==> #[trigger] mul_links_view(ms)[i] == (MulLinkView {
                op: ms[i].op,
                operand: node_view(ms[i].operand),
            }),
{
    lemma_add_links_view(ls);
    lemma_mul_links_view(ms);
}

/// Well-formedness of a tree: every numeral leaf spans a canonical Roman
/// numeral. The parser only builds such trees, and evaluation relies on it.
pub open spec fn node_wf(v: NodeView) -> bool
    decreases v,
{
    match v {
        NodeView::Program { body } => node_wf(*body),
        NodeView::Expr { body } => node_wf(*body),
        NodeView::Term { first, rest } => node_wf(*first) && forall|i: int|
            0 <= i < rest.len() ==> node_wf((#[trigger] rest[i]).operand),
        NodeView::StrongTerm { first, rest } => node_wf(*first) && forall|i: int|
            0 <= i < rest.len() ==> node_wf((#[trigger] rest[i]).operand),
        NodeView::Factor { sign, operand } => node_wf(*operand),
        NodeView::Group { body } => node_wf(*body),
        NodeView::Roman { text } => is_canonical_roman(text),
    }
}

} // verus!
