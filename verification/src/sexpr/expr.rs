//! The expression tree and its canonical text.

use vstd::prelude::*;
use vstd::string::StringExecFns;
use crate::sexpr::decimal::Decimal;

verus! {

/// A node of the expression tree.
#[derive(Debug, PartialEq, Eq)]
pub enum SExpr {
    /// A numeric literal.
    SNumber(Decimal),
    /// A string literal, without its quotes.
    SString(String),
    /// A form headed by a symbol: the symbol and its arguments.
    SFunc(String, Vec<SExpr>),
    /// A form that is not headed by a symbol.
    SList(Vec<SExpr>),
    /// `true` or `false`.
    SBool(bool),
}

/// The tree that an [`SExpr`] stands for, over mathematical sequences.
pub enum Node {
    /// A number, as canonical decimal text.
    Number(Seq<char>),
    Text(Seq<char>),
    Call(Seq<char>, Seq<Node>),
    List(Seq<Node>),
    Bool(bool),
}

impl View for SExpr {
    type V = Node;

    open spec fn view(&self) -> Node
        decreases self,
    {
        match self {
            SExpr::SNumber(d) => Node::Number(d@),
            SExpr::SString(s) => Node::Text(s@),
            SExpr::SFunc(name, args) => Node::Call(
                name@,
                Seq::new(
                    args@.len(),
                    |i: int|
                        if 0 <= i < args@.len() {
                            args@[i]@
                        } else {
                            Node::Bool(false)
                        },
                ),
            ),
            SExpr::SList(elems) => Node::List(
                Seq::new(
                    elems@.len(),
                    |i: int|
                        if 0 <= i < elems@.len() {
                            elems@[i]@
                        } else {
                            Node::Bool(false)
                        },
                ),
            ),
            SExpr::SBool(b) => Node::Bool(*b),
        }
    }
}

/// The trees that a vector of expressions stands for.
pub open spec fn nodes_of(v: Seq<SExpr>) -> Seq<Node> {
    Seq::new(v.len(), |i: int| v[i]@)
}

/// The text of the boolean `true`.
pub open spec fn true_text() -> Seq<char> {
    seq!['t', 'r', 'u', 'e']
}

/// The text of the boolean `false`.
pub open spec fn false_text() -> Seq<char> {
    seq!['f', 'a', 'l', 's', 'e']
}

/// The canonical text of a tree.
///
/// A number is written as its canonical decimal text, a string between
/// double quotes with nothing inside it escaped, a boolean as `true` or
/// `false`. A call is written as `(`, the name, each argument after one
/// space, and `)`. A list is written as `(`, its elements with one space
/// between them, and `)`.
pub open spec fn spec_render(n: Node) -> Seq<char>
    decreases n,
{
    match n {
        Node::Number(text) => text,
        Node::Text(s) => seq!['"'] + s + seq!['"'],
        Node::Call(name, args) => seq!['('] + name + render_args(args) + seq![')'],
        Node::List(elems) => seq!['('] + render_elems(elems) + seq![')'],
        Node::Bool(b) => if b {
            true_text()
        } else {
            false_text()
        },
    }
}

/// Each of `args` in canonical text, after one space.
pub open spec fn render_args(args: Seq<Node>) -> Seq<char>
    decreases args,
{
    if args.len() == 0 {
        Seq::empty()
    } else {
        render_args(args.drop_last()) + seq![' '] + spec_render(args.last())
    }
}

/// `elems` in canonical text, with one space between them.
pub open spec fn render_elems(elems: Seq<Node>) -> Seq<char>
    decreases elems,
{
    if elems.len() == 0 {
        Seq::empty()
    } else {
        spec_render(elems.first()) + render_args(elems.drop_first())
    }
}

impl Clone for SExpr {
    /// A copy that stands for the same tree.
    #[verifier::loop_isolation(false)]
    fn clone(&self) -> (copy: Self)
        ensures
            copy@ == self@,
        decreases self,
    {
        match self {
            SExpr::SNumber(d) => SExpr::SNumber(d.clone()),
            SExpr::SString(s) => SExpr::SString(s.clone()),
            SExpr::SFunc(name, args) => {
                let mut copies: Vec<SExpr> = Vec::new();
                let mut i: usize = 0;
                while i < args.len()
                    invariant
                        i <= args.len(),
                        copies@.len() == i,
                        forall|j: int| 0 <= j < i ==> (#[trigger] copies@[j])@ == args@[j]@,
                    decreases args.len() - i,
                {
                    copies.push(args[i].clone());
                    i += 1;
                }
                let copy = SExpr::SFunc(name.clone(), copies);
                assert(copy@->Call_1 =~= self@->Call_1);
                copy
            },
            SExpr::SList(elems) => {
                let mut copies: Vec<SExpr> = Vec::new();
                let mut i: usize = 0;
                while i < elems.len()
                    invariant
                        i <= elems.len(),
                        copies@.len() == i,
                        forall|j: int| 0 <= j < i ==> (#[trigger] copies@[j])@ == elems@[j]@,
                    decreases elems.len() - i,
                {
                    copies.push(elems[i].clone());
                    i += 1;
                }
                let copy = SExpr::SList(copies);
                assert(copy@->List_0 =~= self@->List_0);
                copy
            },
            SExpr::SBool(b) => SExpr::SBool(*b),
        }
    }
}

impl SExpr {
    /// The canonical text of the expression.
    pub fn render(&self) -> (text: String)
        ensures
            text@ == spec_render(self@),
    {
        let mut text = String::new();
        self.render_into(&mut text);
        text
    }

    /// Appends the canonical text of the expression to `out`.
    #[verifier::loop_isolation(false)]
    pub fn render_into(&self, out: &mut String)
        ensures
            final(out)@ == old(out)@ + spec_render(self@),
        decreases self,
    {
        match self {
            SExpr::SNumber(d) => {
                out.append(d.as_str());
            },
            SExpr::SString(s) => {
                out.push('"');
                out.append(s.as_str());
                out.push('"');
                assert(out@ =~= old(out)@ + spec_render(self@));
            },
            SExpr::SFunc(name, args) => {
                out.push('(');
                out.append(name.as_str());
                let ghost nodes = self@->Call_1;
                let mut i: usize = 0;
                while i < args.len()
                    invariant
                        i <= args.len(),
                        out@ == old(out)@ + seq!['('] + name@ + render_args(nodes.take(i as int)),
                    decreases args.len() - i,
                {
                    out.push(' ');
                    args[i].render_into(out);
                    proof {
                        let next = nodes.take(i + 1);
                        assert(next.drop_last() =~= nodes.take(i as int));
                        assert(next.last() == args@[i as int]@);
                    }
                    i += 1;
                }
                out.push(')');
                assert(nodes.take(args.len() as int) =~= nodes);
                assert(out@ =~= old(out)@ + spec_render(self@));
            },
            SExpr::SList(elems) => {
                out.push('(');
                let ghost nodes = self@->List_0;
                if elems.len() > 0 {
                    elems[0].render_into(out);
                    let ghost rest = nodes.drop_first();
                    let mut i: usize = 1;
                    while i < elems.len()
                        invariant
                            1 <= i <= elems.len(),
                            out@ == old(out)@ + seq!['('] + spec_render(nodes.first())
                                + render_args(rest.take(i - 1)),
                        decreases elems.len() - i,
                    {
                        out.push(' ');
                        elems[i].render_into(out);
                        proof {
                            let next = rest.take(i as int);
                            assert(next.drop_last() =~= rest.take(i - 1));
                            assert(next.last() == elems@[i as int]@);
                        }
                        i += 1;
                    }
                    assert(rest.take(elems.len() - 1) =~= rest);
                }
                out.push(')');
                assert(out@ =~= old(out)@ + spec_render(self@));
            },
            SExpr::SBool(b) => {
                proof {
                    reveal_strlit("true");
                    reveal_strlit("false");
                }
                if *b {
                    out.append("true");
                } else {
                    out.append("false");
                }
                assert(out@ =~= old(out)@ + spec_render(self@));
            },
        }
    }
}

} // verus!
