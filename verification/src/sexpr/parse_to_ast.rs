//! The builder: from the children of one parenthesized form to its node.

use vstd::prelude::*;
use crate::sexpr::error::ParseError;
use crate::sexpr::expr::{nodes_of, Node, SExpr};
use crate::sexpr::sexpr_parser::{tokens_of, Expr, Token};

verus! {

/// The node that a child becomes inside its parent. A literal stays what it
/// is, a bare symbol becomes a call without arguments, a finished form is
/// taken as it is. The mark of an open form is no child; it is given the
/// empty list here so that the function is total.
pub open spec fn node_of(t: Token) -> Node {
    match t {
        Token::Number(text) => Node::Number(text),
        Token::Text(s) => Node::Text(s),
        Token::Bool(b) => Node::Bool(b),
        Token::Symbol(name) => Node::Call(name, Seq::empty()),
        Token::Sub(node) => node,
        Token::GroupStart => Node::List(Seq::empty()),
    }
}

/// Each child as a node, in order.
pub open spec fn nodes_from(children: Seq<Token>) -> Seq<Node> {
    Seq::new(children.len(), |i: int| node_of(children[i]))
}

/// None of `children` is the mark of an open form.
pub open spec fn all_children(children: Seq<Token>) -> bool {
    forall|i: int| 0 <= i < children.len() ==> !(#[trigger] children[i] is GroupStart)
}

/// The first child decides that the form is a call or a list.
pub open spec fn has_head(children: Seq<Token>) -> bool {
    children.len() > 0 && (children[0] is Symbol || children[0] is Sub)
}

/// The node of a form with the given children. Headed by a symbol it is a
/// call of that symbol on the other children; headed by a finished form it
/// is the list of all children. Without children, or headed by anything
/// else, it is rejected.
pub open spec fn build(children: Seq<Token>) -> Result<Node, ParseError> {
    if children.len() == 0 {
        Err(ParseError::Structure)
    } else {
        match children[0] {
            Token::Symbol(name) => Ok(Node::Call(name, nodes_from(children.drop_first()))),
            Token::Sub(_) => Ok(Node::List(nodes_from(children))),
            _ => Err(ParseError::Structure),
        }
    }
}

/// What a result of reading stands for.
pub open spec fn outcome_of(r: Result<SExpr, ParseError>) -> Result<Node, ParseError> {
    match r {
        Ok(node) => Ok(node@),
        Err(e) => Err(e),
    }
}

/// Builds the node of a form from its children.
///
/// Headed by a symbol the form is a call, headed by a finished form it is a
/// list; without children, or headed by anything else, it is rejected with
/// `ParseError::Structure`. Where the head makes a call or a list, none of
/// the other children may be the mark of an open form.
pub fn parse(expressions: Vec<Expr>) -> (r: Result<SExpr, ParseError>)
    requires
        has_head(tokens_of(expressions@)) ==> all_children(tokens_of(expressions@).drop_first()),
    ensures
        outcome_of(r) == build(tokens_of(expressions@)),
{
    let mut expressions = expressions;
    let ghost children = tokens_of(expressions@);
    if expressions.len() == 0 {
        return Err(ParseError::Structure);
    }
    let rest = expressions.split_off(1);
    assert(tokens_of(rest@) =~= children.drop_first());
    assert(expressions@[0]@ == children[0]);
    let head = expressions.pop();
    match head {
        Some(Expr::FuncExpr(name)) => {
            let args = transform_expressions(rest);
            let node = SExpr::SFunc(name, args);
            assert(node@->Call_1 =~= nodes_from(children.drop_first()));
            Ok(node)
        },
        Some(Expr::AstExpr(first)) => {
            let mut elems: Vec<SExpr> = Vec::new();
            elems.push(first);
            let mut others = transform_expressions(rest);
            let ghost others_view = others@;
            elems.append(&mut others);
            let node = SExpr::SList(elems);
            assert forall|i: int| 0 <= i < children.len() implies node@->List_0[i] == node_of(
                children[i],
            ) by {
                if i > 0 {
                    assert(nodes_of(others_view)[i - 1] == nodes_from(children.drop_first())[i - 1]);
                }
            }
            assert(node@->List_0 =~= nodes_from(children));
            Ok(node)
        },
        _ => Err(ParseError::Structure),
    }
}

/// Turns each child into its node, in order.
fn transform_expressions(expressions: Vec<Expr>) -> (nodes: Vec<SExpr>)
    requires
        all_children(tokens_of(expressions@)),
    ensures
        nodes@.len() == expressions@.len(),
        nodes_of(nodes@) == nodes_from(tokens_of(expressions@)),
{
    let ghost children = tokens_of(expressions@);
    let mut nodes: Vec<SExpr> = Vec::new();
    for expr in it: expressions.into_iter()
        invariant
            it.seq() == expressions@,
            children == tokens_of(expressions@),
            all_children(children),
            nodes@.len() == it.index(),
            nodes_of(nodes@) == nodes_from(children.take(it.index())),
    {
        let ghost i = it.index();
        assert(expr@ == children[i]);
        assert(!(children[i] is GroupStart));
        let node = match expr {
            Expr::NumberExpr(n) => SExpr::SNumber(n),
            Expr::StringExpr(s) => SExpr::SString(s),
            Expr::FuncExpr(name) => SExpr::SFunc(name, Vec::new()),
            Expr::BoolExpr(b) => SExpr::SBool(b),
            Expr::AstExpr(ast) => ast,
            Expr::ElemStartTerminator => SExpr::SList(Vec::new()),
        };
        assert(node@ == node_of(children[i])) by {
            if expr is FuncExpr {
                assert(node@->Call_1 =~= Seq::<Node>::empty());
            }
        }
        let ghost before = nodes@;
        nodes.push(node);
        assert forall|j: int| 0 <= j <= i implies nodes_of(nodes@)[j] == nodes_from(
            children.take(i + 1),
        )[j] by {
            if j < i {
                assert(nodes_of(before)[j] == nodes_from(children.take(i))[j]);
            }
        }
        assert(nodes_of(nodes@) =~= nodes_from(children.take(i + 1)));
    }
    assert(children.take(children.len() as int) =~= children);
    nodes
}

} // verus!
