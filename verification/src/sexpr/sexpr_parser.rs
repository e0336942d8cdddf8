//! The scanner: one pass over the characters of a text, which cuts it into
//! tokens and assembles the tree on a stack.

use vstd::prelude::*;
use crate::sexpr::decimal::Decimal;
use crate::sexpr::error::ParseError;
use crate::sexpr::expr::{Node, SExpr};
use crate::sexpr::expr_parser::{classify, classify_chars};
use crate::sexpr::parse_to_ast;
use crate::sexpr::parse_to_ast::{build, outcome_of};

verus! {

/// What the scanner keeps on its stack: a classified token, a finished
/// form, or the mark of a form that is still open.
#[derive(Debug, PartialEq, Eq)]
pub enum Expr {
    /// Marks where an open form begins.
    ElemStartTerminator,
    NumberExpr(Decimal),
    StringExpr(String),
    /// A bare symbol.
    FuncExpr(String),
    BoolExpr(bool),
    /// A finished form.
    AstExpr(SExpr),
}

/// What an [`Expr`] stands for, over mathematical sequences.
pub enum Token {
    /// The mark of an open form.
    GroupStart,
    /// A number, as canonical decimal text.
    Number(Seq<char>),
    /// A string literal, without its quotes.
    Text(Seq<char>),
    /// A bare symbol.
    Symbol(Seq<char>),
    Bool(bool),
    /// A finished form.
    Sub(Node),
}

impl View for Expr {
    type V = Token;

    open spec fn view(&self) -> Token {
        match self {
            Expr::ElemStartTerminator => Token::GroupStart,
            Expr::NumberExpr(d) => Token::Number(d@),
            Expr::StringExpr(s) => Token::Text(s@),
            Expr::FuncExpr(name) => Token::Symbol(name@),
            Expr::BoolExpr(b) => Token::Bool(*b),
            Expr::AstExpr(node) => Token::Sub(node@),
        }
    }
}

impl Clone for Expr {
    /// A copy that stands for the same token.
    fn clone(&self) -> (copy: Self)
        ensures
            copy@ == self@,
    {
        match self {
            Expr::ElemStartTerminator => Expr::ElemStartTerminator,
            Expr::NumberExpr(d) => Expr::NumberExpr(d.clone()),
            Expr::StringExpr(s) => Expr::StringExpr(s.clone()),
            Expr::FuncExpr(name) => Expr::FuncExpr(name.clone()),
            Expr::BoolExpr(b) => Expr::BoolExpr(*b),
            Expr::AstExpr(node) => Expr::AstExpr(node.clone()),
        }
    }
}

/// The tokens that a vector of stack entries stands for.
pub open spec fn tokens_of(v: Seq<Expr>) -> Seq<Token> {
    Seq::new(v.len(), |i: int| v[i]@)
}

/// A character that ends a token: a space, a closing parenthesis or a line
/// break.
pub fn is_end_terminator(token: char) -> (b: bool)
    ensures
        b == (token == ' ' || token == ')' || token == '\n'),
{
    token == ' ' || token == ')' || token == '\n'
}

/// A character after which a token may begin: a space, an opening
/// parenthesis or a line break.
pub fn is_start_terminator(token: char) -> (b: bool)
    ensures
        b == (token == ' ' || token == '(' || token == '\n'),
{
    token == ' ' || token == '(' || token == '\n'
}

/// The character that ends a form: a closing parenthesis.
pub fn is_list_end_terminator(token: char) -> (b: bool)
    ensures
        b == (token == ')'),
{
    token == ')'
}

/// The character that begins a form: an opening parenthesis.
pub fn is_list_start_terminator(token: char) -> (b: bool)
    ensures
        b == (token == '('),
{
    token == '('
}

/// The state of the scanner between two characters.
pub struct Scan {
    /// The characters of the token that is being read.
    pub current: Seq<char>,
    /// What was set aside at each opening parenthesis that no token has used
    /// up yet, oldest first.
    pub shelved: Seq<Seq<char>>,
    /// Tokens, finished forms and marks of open forms, in reading order.
    pub stack: Seq<Token>,
    /// Whether the scanner is inside a string literal.
    pub in_string: bool,
    /// Whether a form was rejected. Nothing changes after that.
    pub failed: bool,
}

/// The state before the first character.
pub open spec fn initial() -> Scan {
    Scan {
        current: Seq::empty(),
        shelved: Seq::empty(),
        stack: Seq::empty(),
        in_string: false,
        failed: false,
    }
}

/// Inside a string literal, directly after a backslash.
pub open spec fn escaping(s: Scan) -> bool {
    s.in_string && s.current.len() > 0 && s.current.last() == '\\'
}

/// The token being read ends here. If it is not empty, it is classified
/// and goes on the stack. Reading goes on with what the last opening
/// parenthesis set aside, or with nothing.
pub open spec fn flush(s: Scan) -> Scan {
    Scan {
        current: if s.shelved.len() > 0 {
            s.shelved.last()
        } else {
            Seq::empty()
        },
        shelved: if s.shelved.len() > 0 {
            s.shelved.drop_last()
        } else {
            s.shelved
        },
        stack: if s.current.len() > 0 {
            s.stack.push(classify(s.current))
        } else {
            s.stack
        },
        ..s
    }
}

/// The position of the last mark of an open form on the stack, or -1 if
/// there is none.
pub open spec fn group_start(stack: Seq<Token>) -> int
    decreases stack.len(),
{
    if stack.len() == 0 {
        -1
    } else if stack.last() is GroupStart {
        stack.len() - 1
    } else {
        group_start(stack.drop_last())
    }
}

/// What lies on the stack above the last mark: the children of the form
/// that is being closed. Without a mark that is the whole stack.
pub open spec fn children_of(stack: Seq<Token>) -> Seq<Token> {
    stack.skip(group_start(stack) + 1)
}

/// What lies on the stack below the last mark.
pub open spec fn below_group(stack: Seq<Token>) -> Seq<Token> {
    if group_start(stack) >= 0 {
        stack.take(group_start(stack))
    } else {
        Seq::empty()
    }
}

/// A form ends here. Its children leave the stack together with their mark,
/// if there is one, and the node built from them takes their place. A form
/// without children is the empty list. If the children make no form, the
/// scan has failed.
pub open spec fn close(s: Scan) -> Scan {
    let children = children_of(s.stack);
    if children.len() == 0 {
        Scan { stack: below_group(s.stack).push(Token::Sub(Node::List(Seq::empty()))), ..s }
    } else {
        match build(children) {
            Ok(node) => Scan { stack: below_group(s.stack).push(Token::Sub(node)), ..s },
            Err(_) => Scan { failed: true, ..s },
        }
    }
}

/// The state after one more character.
///
/// A double quote directly after a backslash inside a string literal takes
/// the place of that backslash; any other double quote opens or closes a
/// string literal and belongs to the token. Inside a string literal every
/// other character belongs to the token. Outside, an opening parenthesis
/// sets the token read so far aside and marks a new form; a space or a line
/// break ends the token; a closing parenthesis ends the token and the form;
/// any other character belongs to the token.
pub open spec fn step(s: Scan, c: char) -> Scan {
    if s.failed {
        s
    } else if c == '"' {
        if escaping(s) {
            Scan { current: s.current.drop_last().push(c), ..s }
        } else {
            Scan { current: s.current.push(c), in_string: !s.in_string, ..s }
        }
    } else if s.in_string {
        Scan { current: s.current.push(c), ..s }
    } else if c == '(' {
        Scan {
            current: Seq::empty(),
            shelved: s.shelved.push(s.current),
            stack: s.stack.push(Token::GroupStart),
            ..s
        }
    } else if c == ' ' || c == '\n' {
        flush(s)
    } else if c == ')' {
        close(flush(s))
    } else {
        Scan { current: s.current.push(c), ..s }
    }
}

/// The state after the characters of `input`, one after the other.
pub open spec fn scan(s: Scan, input: Seq<char>) -> Scan
    decreases input.len(),
{
    if input.len() == 0 {
        s
    } else {
        step(scan(s, input.drop_last()), input.last())
    }
}

/// What the text was, judged by the state at its end: the one finished form
/// on the stack, or the reason why there is none.
pub open spec fn finish(s: Scan) -> Result<Node, ParseError> {
    if s.failed {
        Err(ParseError::Structure)
    } else if s.stack.len() == 0 {
        Err(ParseError::EmptyInput)
    } else if s.stack.len() == 1 {
        match s.stack[0] {
            Token::Sub(node) => Ok(node),
            _ => Err(ParseError::MalformedStructure),
        }
    } else {
        Err(ParseError::MalformedStructure)
    }
}

/// The tree that a text denotes, or the reason why it denotes none.
pub open spec fn spec_parse(input: Seq<char>) -> Result<Node, ParseError> {
    finish(scan(initial(), input))
}

/// Scanning a text in two parts is scanning the whole.
pub proof fn lemma_scan_concat(s: Scan, a: Seq<char>, b: Seq<char>)
    ensures
        scan(s, a + b) == scan(scan(s, a), b),
    decreases b.len(),
{
    if b.len() == 0 {
        assert(a + b =~= a);
    } else {
        lemma_scan_concat(s, a, b.drop_last());
        assert((a + b).drop_last() =~= a + b.drop_last());
        assert((a + b).last() == b.last());
    }
}

/// A failed scan stays as it is.
pub proof fn lemma_scan_failed(s: Scan, input: Seq<char>)
    requires
        s.failed,
    ensures
        scan(s, input) == s,
    decreases input.len(),
{
    if input.len() > 0 {
        lemma_scan_failed(s, input.drop_last());
    }
}

/// The last mark is where a mark lies with none above it.
pub proof fn lemma_group_start_is(stack: Seq<Token>, g: int)
    requires
        -1 <= g < stack.len(),
        g >= 0 ==> stack[g] is GroupStart,
        forall|i: int| g < i < stack.len() ==> !(#[trigger] stack[i] is GroupStart),
    ensures
        group_start(stack) == g,
    decreases stack.len(),
{
    if stack.len() > 0 && g < stack.len() - 1 {
        assert(!(stack[stack.len() - 1] is GroupStart));
        lemma_group_start_is(stack.drop_last(), g);
    }
}

/// The scanner at work: the state of the model in vectors.
struct Scanner {
    current: Vec<char>,
    shelved: Vec<Vec<char>>,
    stack: Vec<Expr>,
    in_string: bool,
}

impl View for Scanner {
    type V = Scan;

    closed spec fn view(&self) -> Scan {
        Scan {
            current: self.current@,
            shelved: Seq::new(self.shelved@.len(), |i: int| self.shelved@[i]@),
            stack: tokens_of(self.stack@),
            in_string: self.in_string,
            failed: false,
        }
    }
}

fn is_group_start(e: &Expr) -> (b: bool)
    ensures
        b == (e@ is GroupStart),
{
    match e {
        Expr::ElemStartTerminator => true,
        _ => false,
    }
}

impl Scanner {
    fn new() -> (s: Scanner)
        ensures
            s@ == initial(),
    {
        let s = Scanner {
            current: Vec::new(),
            shelved: Vec::new(),
            stack: Vec::new(),
            in_string: false,
        };
        assert(s@.shelved =~= Seq::empty());
        assert(s@.stack =~= Seq::empty());
        s
    }

    /// Ends the token that is being read.
    fn flush(&mut self)
        ensures
            final(self)@ == flush(old(self)@),
    {
        let mut text: Vec<char> = Vec::new();
        core::mem::swap(&mut text, &mut self.current);
        match self.shelved.pop() {
            Some(top) => {
                self.current = top;
            },
            None => {},
        }
        if text.len() > 0 {
            let token = classify_chars(text);
            self.stack.push(token);
        }
        assert(self@.shelved =~= flush(old(self)@).shelved);
        assert(self@.stack =~= flush(old(self)@).stack);
    }

    /// Ends the form that is being read.
    fn close(&mut self) -> (r: Result<(), ParseError>)
        ensures
            match r {
                Ok(_) => final(self)@ == close(old(self)@),
                Err(e) => e == ParseError::Structure && close(old(self)@).failed,
            },
    {
        let ghost before = self@.stack;
        let n = self.stack.len();
        let mut g: usize = n;
        while g > 0 && !is_group_start(&self.stack[g - 1])
            invariant
                g <= n == self.stack.len(),
                self@.stack == before,
                forall|i: int| g <= i < n ==> !(#[trigger] before[i] is GroupStart),
            decreases g,
        {
            g -= 1;
        }
        proof {
            lemma_group_start_is(before, g - 1);
        }
        let children = self.stack.split_off(g);
        assert(tokens_of(children@) =~= children_of(before));
        if g > 0 {
            self.stack.pop();
        }
        assert(self@.stack =~= below_group(before));
        if children.len() == 0 {
            self.stack.push(Expr::AstExpr(SExpr::SList(Vec::new())));
            assert(self.stack@.last()@ == Token::Sub(Node::List(Seq::empty()))) by {
                assert(self.stack@.last()@->Sub_0->List_0 =~= Seq::<Node>::empty());
            }
            assert(self@.stack =~= close(old(self)@).stack);
            Ok(())
        } else {
            match parse_to_ast::parse(children) {
                Ok(node) => {
                    self.stack.push(Expr::AstExpr(node));
                    assert(self@.stack =~= close(old(self)@).stack);
                    Ok(())
                },
                Err(e) => Err(e),
            }
        }
    }

    /// Reads one character.
    fn feed(&mut self, c: char) -> (r: Result<(), ParseError>)
        ensures
            match r {
                Ok(_) => final(self)@ == step(old(self)@, c),
                Err(e) => e == ParseError::Structure && step(old(self)@, c).failed,
            },
    {
        if c == '"' {
            let n = self.current.len();
            if self.in_string && n > 0 && self.current[n - 1] == '\\' {
                self.current.pop();
                self.current.push(c);
            } else {
                self.current.push(c);
                self.in_string = !self.in_string;
            }
            Ok(())
        } else if self.in_string {
            self.current.push(c);
            Ok(())
        } else if is_list_start_terminator(c) {
            let mut text: Vec<char> = Vec::new();
            core::mem::swap(&mut text, &mut self.current);
            self.shelved.push(text);
            self.stack.push(Expr::ElemStartTerminator);
            assert(self@.shelved =~= step(old(self)@, c).shelved);
            assert(self@.stack =~= step(old(self)@, c).stack);
            Ok(())
        } else if is_end_terminator(c) {
            self.flush();
            if is_list_end_terminator(c) {
                self.close()
            } else {
                Ok(())
            }
        } else {
            self.current.push(c);
            Ok(())
        }
    }

    /// Ends the text.
    fn finish(self) -> (r: Result<SExpr, ParseError>)
        ensures
            outcome_of(r) == finish(self@),
    {
        let mut stack = self.stack;
        if stack.len() == 0 {
            Err(ParseError::EmptyInput)
        } else if stack.len() == 1 {
            match stack.pop() {
                Some(Expr::AstExpr(node)) => Ok(node),
                _ => Err(ParseError::MalformedStructure),
            }
        } else {
            Err(ParseError::MalformedStructure)
        }
    }
}

/// Reads a text to its tree, one character after the other.
///
/// The result is the one finished form that the text leaves on the stack.
/// A form that is headed by a literal stops the reading with
/// `ParseError::Structure`. A text that leaves nothing on the stack gives
/// `ParseError::EmptyInput`; one that leaves anything else than one
/// finished form gives `ParseError::MalformedStructure`.
pub fn parse(sexpr: String) -> (r: Result<SExpr, ParseError>)
    ensures
        outcome_of(r) == spec_parse(sexpr@),
{
    broadcast use vstd::string::group_string_axioms;

    let mut scanner = Scanner::new();
    for token in it: sexpr.as_str().chars()
        invariant
            it.seq() == sexpr@,
            scanner@ == scan(initial(), sexpr@.take(it.index())),
    {
        let ghost i = it.index();
        proof {
            assert(sexpr@.take(i + 1).drop_last() =~= sexpr@.take(i));
            assert(sexpr@.take(i + 1).last() == token);
        }
        match scanner.feed(token) {
            Ok(_) => {},
            Err(e) => {
                proof {
                    let done = sexpr@.take(i + 1);
                    let rest = sexpr@.skip(i + 1);
                    assert(done + rest =~= sexpr@);
                    lemma_scan_concat(initial(), done, rest);
                    lemma_scan_failed(scan(initial(), done), rest);
                }
                return Err(e);
            },
        }
    }
    assert(sexpr@.take(sexpr@.len() as int) =~= sexpr@);
    scanner.finish()
}

} // verus!
