//! Reading the canonical text of a tree gives the tree again.
//!
//! This holds of a tree exactly when each of its names and string literals
//! is cut out of the canonical text as it was written into it; such text is
//! called self-delimiting here. Every tree read from a text in which no
//! double quote stands directly after a backslash is of that kind. An
//! escaped quote in a string literal leads to a tree that is not: the
//! canonical text writes the quote without its backslash, and there it
//! ends the literal.
//!
//! That the condition is enough is shown by following the scanner through
//! the canonical text. That it is needed is shown by counting backslashes:
//! the scanner drops one whenever a quote is escaped, so nothing can have
//! been escaped where the tree comes out as it went in.

use vstd::prelude::*;
use crate::sexpr::decimal::{
    dot_index, fraction_part, is_canonical, is_digit, is_number,
    lemma_canonical_is_canonical, lemma_dot_index, whole_part,
};
use crate::sexpr::expr::{
    false_text, render_args, render_elems, spec_render, true_text, Node, SExpr,
};
use crate::sexpr::expr_parser::{classify, is_quoted};
use crate::sexpr::parse_to_ast::{build, node_of, nodes_from};
use crate::sexpr::sexpr_parser::{
    below_group, children_of, close, escaping, flush, group_start, initial, is_end_terminator,
    is_start_terminator, lemma_group_start_is, lemma_scan_concat, scan, spec_parse, step, Scan,
    Token,
};
use crate::sexpr::text::chars_of;

verus! {

/// The characters that end a token or begin a form outside a string
/// literal.
pub open spec fn is_delimiter(c: char) -> bool {
    c == ' ' || c == '\n' || c == '(' || c == ')'
}

/// Whether the end of `text` lies inside a string literal, when `text` is
/// read from outside one and every double quote opens or closes one.
pub open spec fn ends_in_string(text: Seq<char>) -> bool
    decreases text.len(),
{
    if text.len() == 0 {
        false
    } else if text.last() == '"' {
        !ends_in_string(text.drop_last())
    } else {
        ends_in_string(text.drop_last())
    }
}

/// Every character of `text`, read from outside a string literal, becomes
/// part of one token as it stands: no double quote comes directly after a
/// backslash inside a string literal, and no delimiter stands outside one.
pub open spec fn reads_verbatim(text: Seq<char>) -> bool
    decreases text.len(),
{
    text.len() == 0 || {
        let before = text.drop_last();
        &&& reads_verbatim(before)
        &&& if text.last() == '"' {
            !(ends_in_string(before) && before.len() > 0 && before.last() == '\\')
        } else {
            ends_in_string(before) || !is_delimiter(text.last())
        }
    }
}

/// `text` is cut out of a longer text as one token and as it stands: it
/// reads verbatim and its double quotes pair up.
pub open spec fn self_delimiting(text: Seq<char>) -> bool {
    reads_verbatim(text) && !ends_in_string(text)
}

/// Text that reads verbatim does so up to any point.
pub proof fn lemma_reads_verbatim_prefix(text: Seq<char>, k: int)
    requires
        reads_verbatim(text),
        0 <= k <= text.len(),
    ensures
        reads_verbatim(text.take(k)),
    decreases text.len(),
{
    if k < text.len() {
        lemma_reads_verbatim_prefix(text.drop_last(), k);
        assert(text.drop_last().take(k) =~= text.take(k));
    } else {
        assert(text.take(k) =~= text);
    }
}

/// Decides whether `text` is self-delimiting.
pub fn is_self_delimiting(text: &Vec<char>) -> (b: bool)
    ensures
        b == self_delimiting(text@),
{
    let mut in_string = false;
    let mut i: usize = 0;
    while i < text.len()
        invariant
            i <= text.len(),
            reads_verbatim(text@.take(i as int)),
            in_string == ends_in_string(text@.take(i as int)),
        decreases text.len() - i,
    {
        let c = text[i];
        let ghost before = text@.take(i as int);
        let ghost upto = text@.take(i + 1);
        proof {
            assert(upto.drop_last() =~= before);
            assert(upto.last() == c);
            if i > 0 {
                assert(before.last() == text@[i - 1]);
            }
        }
        let stops = if c == '"' {
            in_string && i > 0 && text[i - 1] == '\\'
        } else {
            !in_string && (is_start_terminator(c) || is_end_terminator(c))
        };
        if stops {
            proof {
                if reads_verbatim(text@) {
                    lemma_reads_verbatim_prefix(text@, i + 1);
                }
            }
            return false;
        }
        if c == '"' {
            in_string = !in_string;
        }
        i += 1;
    }
    assert(text@.take(text.len() as int) =~= text@);
    !in_string
}

/// Text that reads verbatim becomes the token that is being read.
pub proof fn lemma_scan_token(s: Scan, text: Seq<char>)
    requires
        !s.failed,
        !s.in_string,
        s.current.len() == 0,
        reads_verbatim(text),
    ensures
        scan(s, text) == (Scan { current: text, in_string: ends_in_string(text), ..s }),
    decreases text.len(),
{
    if text.len() > 0 {
        let before = text.drop_last();
        lemma_scan_token(s, before);
        let r = scan(s, before);
        assert(before.push(text.last()) =~= text);
        if text.last() == '"' && before.len() > 0 && ends_in_string(before) {
            assert(before.last() != '\\');
        }
    } else {
        assert(s.current =~= text);
    }
}

/// What a scan from the start shows of its text while nothing has reached
/// the stack: nothing was set aside, the token being read is no longer than
/// the text, and if it is as long, it is the text, which then reads
/// verbatim.
proof fn lemma_scan_before_first_token(text: Seq<char>)
    ensures
        ({
            let r = scan(initial(), text);
            r.stack.len() == 0 && !r.failed ==> {
                &&& r.shelved.len() == 0
                &&& r.current.len() <= text.len()
                &&& r.current.len() == text.len() ==> {
                    &&& r.current == text
                    &&& reads_verbatim(text)
                    &&& r.in_string == ends_in_string(text)
                }
            }
        }),
    decreases text.len(),
{
    if text.len() > 0 {
        let before = text.drop_last();
        let c = text.last();
        lemma_scan_before_first_token(before);
        let r0 = scan(initial(), before);
        let r = step(r0, c);
        if r.stack.len() == 0 && !r.failed {
            assert(r0.stack.len() == 0);
            if r.current.len() == text.len() {
                assert(r0.current == before);
                assert(before.push(c) =~= text);
            }
        }
    } else {
        assert(initial().current =~= text);
    }
}

/// Self-delimiting text is what the scanner, started afresh, reads as one
/// unfinished token and nothing else.
pub proof fn lemma_self_delimiting_iff(text: Seq<char>)
    ensures
        self_delimiting(text) <==> scan(initial(), text) == (Scan { current: text, ..initial() }),
{
    if self_delimiting(text) {
        lemma_scan_token(initial(), text);
    }
    lemma_scan_before_first_token(text);
}

/// Text without double quotes and delimiters is self-delimiting.
pub proof fn lemma_plain_text(text: Seq<char>)
    requires
        forall|i: int| 0 <= i < text.len() ==> text[i] != '"' && !is_delimiter(#[trigger] text[i]),
    ensures
        self_delimiting(text),
    decreases text.len(),
{
    if text.len() > 0 {
        lemma_plain_text(text.drop_last());
        assert(!is_delimiter(text[text.len() - 1]));
    }
}

/// A number literal holds digits and dots only.
pub proof fn lemma_number_chars(text: Seq<char>)
    requires
        is_number(text),
    ensures
        forall|i: int| 0 <= i < text.len() ==> is_digit(#[trigger] text[i]) || text[i] == '.',
{
    lemma_dot_index(text);
    let d = dot_index(text);
    assert forall|i: int| 0 <= i < text.len() implies is_digit(#[trigger] text[i]) || text[i]
        == '.' by {
        if i < d {
            assert(whole_part(text)[i] == text[i]);
        } else if i > d {
            assert(fraction_part(text)[i - d - 1] == text[i]);
        }
    }
}

/// A canonical number is read as the number it is.
pub proof fn lemma_number_token(text: Seq<char>)
    requires
        is_canonical(text),
    ensures
        self_delimiting(text),
        text.len() > 0,
        classify(text) == Token::Number(text),
{
    lemma_number_chars(text);
    lemma_dot_index(text);
    assert forall|i: int| 0 <= i < text.len() implies text[i] != '"' && !is_delimiter(
        #[trigger] text[i],
    ) by {
        assert(is_digit(text[i]) || text[i] == '.');
    }
    lemma_plain_text(text);
    assert(whole_part(text).len() > 0);
    assert(is_digit(whole_part(text)[0]));
}

/// `true` and `false` are read as the booleans they are.
pub proof fn lemma_bool_token(b: bool)
    ensures
        self_delimiting(spec_render(Node::Bool(b))),
        spec_render(Node::Bool(b)).len() > 0,
        classify(spec_render(Node::Bool(b))) == Token::Bool(b),
{
    let text = spec_render(Node::Bool(b));
    lemma_plain_text(text);
    lemma_dot_index(text);
    if dot_index(text) > 0 {
        assert(whole_part(text)[0] == text[0]);
    }
    if !b {
        assert(false_text().len() != true_text().len());
    }
}

/// A string literal between its quotes is read as the string it is.
pub proof fn lemma_string_token(s: Seq<char>)
    ensures
        classify(spec_render(Node::Text(s))) == Token::Text(s),
{
    let text = spec_render(Node::Text(s));
    assert(is_quoted(text));
    assert(text.subrange(1, text.len() - 1) =~= s);
}

/// A parenthesized form: a call or a list.
pub open spec fn is_form(n: Node) -> bool {
    n is Call || n is List
}

/// What holds of every node that the reader yields: a number is canonical,
/// the name of a call is a token that is classified as a symbol, and a list
/// that is not empty begins with a form.
pub open spec fn well_formed(n: Node) -> bool
    decreases n,
{
    match n {
        Node::Number(text) => is_canonical(text),
        Node::Text(_) => true,
        Node::Bool(_) => true,
        Node::Call(name, args) => {
            &&& name.len() > 0
            &&& classify(name) == Token::Symbol(name)
            &&& forall|i: int| 0 <= i < args.len() ==> well_formed(#[trigger] args[i])
        },
        Node::List(elems) => {
            &&& elems.len() > 0 ==> is_form(elems[0])
            &&& forall|i: int| 0 <= i < elems.len() ==> well_formed(#[trigger] elems[i])
        },
    }
}

/// Every name and every string literal of the tree, the literal between
/// its quotes, is self-delimiting.
pub open spec fn reads_back(n: Node) -> bool
    decreases n,
{
    match n {
        Node::Number(_) => true,
        Node::Text(s) => self_delimiting(seq!['"'] + s + seq!['"']),
        Node::Bool(_) => true,
        Node::Call(name, args) => {
            &&& self_delimiting(name)
            &&& forall|i: int| 0 <= i < args.len() ==> reads_back(#[trigger] args[i])
        },
        Node::List(elems) => forall|i: int| 0 <= i < elems.len() ==> reads_back(#[trigger] elems[i]),
    }
}

impl SExpr {
    /// Decides whether each name and string literal of the tree is
    /// self-delimiting, and so whether the canonical text of the tree can
    /// be read again.
    #[verifier::loop_isolation(false)]
    pub fn reads_back(&self) -> (b: bool)
        ensures
            b == reads_back(self@),
        decreases self,
    {
        match self {
            SExpr::SNumber(_) => true,
            SExpr::SBool(_) => true,
            SExpr::SString(s) => {
                let mut quoted: Vec<char> = Vec::new();
                quoted.push('"');
                let mut inner = chars_of(s.as_str());
                quoted.append(&mut inner);
                quoted.push('"');
                assert(quoted@ =~= seq!['"'] + s@ + seq!['"']);
                is_self_delimiting(&quoted)
            },
            SExpr::SFunc(name, args) => {
                if !is_self_delimiting(&chars_of(name.as_str())) {
                    return false;
                }
                let ghost nodes = self@->Call_1;
                let mut i: usize = 0;
                while i < args.len()
                    invariant
                        i <= args.len(),
                        forall|j: int| 0 <= j < i ==> reads_back(#[trigger] nodes[j]),
                    decreases args.len() - i,
                {
                    if !args[i].reads_back() {
                        assert(!reads_back(nodes[i as int]));
                        return false;
                    }
                    i += 1;
                }
                true
            },
            SExpr::SList(elems) => {
                let ghost nodes = self@->List_0;
                let mut i: usize = 0;
                while i < elems.len()
                    invariant
                        i <= elems.len(),
                        forall|j: int| 0 <= j < i ==> reads_back(#[trigger] nodes[j]),
                    decreases elems.len() - i,
                {
                    if !elems[i].reads_back() {
                        assert(!reads_back(nodes[i as int]));
                        return false;
                    }
                    i += 1;
                }
                true
            },
        }
    }
}

/// What lies on the stack once the canonical text of a child has been read.
pub open spec fn token_of(n: Node) -> Token {
    match n {
        Node::Number(text) => Token::Number(text),
        Node::Text(s) => Token::Text(s),
        Node::Bool(b) => Token::Bool(b),
        _ => Token::Sub(n),
    }
}

/// What lies on the stack once the canonical texts of `nodes` have been
/// read.
pub open spec fn tokens_for(nodes: Seq<Node>) -> Seq<Token> {
    Seq::new(nodes.len(), |i: int| token_of(nodes[i]))
}

/// Between two children of a form: outside a string literal, with nothing
/// set aside.
pub open spec fn settled(s: Scan) -> bool {
    &&& !s.failed
    &&& !s.in_string
    &&& forall|i: int| 0 <= i < s.shelved.len() ==> (#[trigger] s.shelved[i]).len() == 0
}

/// Settled, and no token is being read.
pub open spec fn idle(s: Scan) -> bool {
    settled(s) && s.current.len() == 0
}

proof fn lemma_scan_one(s: Scan, c: char)
    ensures
        scan(s, seq![c]) == step(s, c),
{
    assert(seq![c].drop_last() =~= Seq::<char>::empty());
    assert(scan(s, Seq::<char>::empty()) == s);
}

proof fn lemma_flush_settled(r: Scan)
    requires
        settled(r),
    ensures
        idle(flush(r)),
{
    let f = flush(r);
    if r.shelved.len() > 0 {
        assert(r.shelved[r.shelved.len() - 1].len() == 0);
    }
    assert forall|i: int| 0 <= i < f.shelved.len() implies (#[trigger] f.shelved[i]).len() == 0 by {
        assert(f.shelved[i] == r.shelved[i]);
    }
}

/// Reading the canonical text of a child from an idle state leaves the
/// scanner settled, and the end of the token then puts the child on the
/// stack.
proof fn lemma_scan_node(s: Scan, n: Node)
    requires
        idle(s),
        well_formed(n),
        reads_back(n),
    ensures
        settled(scan(s, spec_render(n))),
        flush(scan(s, spec_render(n))).stack == s.stack.push(token_of(n)),
        is_form(n) ==> scan(s, spec_render(n)).current.len() == 0,
    decreases n,
{
    let text = spec_render(n);
    match n {
        Node::Number(t) => {
            lemma_number_token(t);
            lemma_scan_token(s, t);
        },
        Node::Text(str) => {
            lemma_string_token(str);
            lemma_scan_token(s, text);
        },
        Node::Bool(b) => {
            lemma_bool_token(b);
            lemma_scan_token(s, text);
        },
        Node::Call(name, args) => {
            let open = seq!['('];
            let s1 = step(s, '(');
            lemma_scan_one(s, '(');
            assert(idle(s1)) by {
                assert forall|i: int| 0 <= i < s1.shelved.len() implies (
                #[trigger] s1.shelved[i]).len() == 0 by {
                    if i < s.shelved.len() {
                        assert(s1.shelved[i] == s.shelved[i]);
                    }
                }
            }
            lemma_scan_token(s1, name);
            let s2 = scan(s1, name);
            assert(settled(s2));
            lemma_scan_args(s2, args);
            let s3 = scan(s2, render_args(args));
            let s4 = step(s3, ')');
            lemma_scan_one(s3, ')');
            assert(text == open + name + render_args(args) + seq![')']);
            lemma_scan_concat(s, open + name + render_args(args), seq![')']);
            lemma_scan_concat(s, open + name, render_args(args));
            lemma_scan_concat(s, open, name);
            assert(scan(s, text) == s4);
            let f = flush(s3);
            lemma_flush_settled(s3);
            let head = seq![Token::Symbol(name)];
            assert(flush(s2).stack == s.stack.push(Token::GroupStart).push(Token::Symbol(name)));
            assert(f.stack =~= s.stack.push(Token::GroupStart) + (head + tokens_for(args)));
            lemma_close_form(s.stack, head + tokens_for(args), f);
            assert(nodes_from((head + tokens_for(args)).drop_first()) =~= args);
            lemma_settled_after_close(f);
        },
        Node::List(elems) => {
            let open = seq!['('];
            let s1 = step(s, '(');
            lemma_scan_one(s, '(');
            assert(idle(s1)) by {
                assert forall|i: int| 0 <= i < s1.shelved.len() implies (
                #[trigger] s1.shelved[i]).len() == 0 by {
                    if i < s.shelved.len() {
                        assert(s1.shelved[i] == s.shelved[i]);
                    }
                }
            }
            lemma_scan_elems(s1, elems);
            let s3 = scan(s1, render_elems(elems));
            let s4 = step(s3, ')');
            lemma_scan_one(s3, ')');
            assert(text == open + render_elems(elems) + seq![')']);
            lemma_scan_concat(s, open + render_elems(elems), seq![')']);
            lemma_scan_concat(s, open, render_elems(elems));
            assert(scan(s, text) == s4);
            let f = flush(s3);
            lemma_flush_settled(s3);
            assert(f.stack == s.stack.push(Token::GroupStart) + tokens_for(elems));
            lemma_close_form(s.stack, tokens_for(elems), f);
            if elems.len() > 0 {
                assert(tokens_for(elems)[0] == token_of(elems[0]));
                assert(nodes_from(tokens_for(elems)) =~= elems);
            } else {
                assert(elems =~= Seq::<Node>::empty());
            }
            lemma_settled_after_close(f);
        },
    }
}

/// Closing a form whose mark lies on `below` and whose children are
/// `children`, none of them a mark.
proof fn lemma_close_form(below: Seq<Token>, children: Seq<Token>, f: Scan)
    requires
        f.stack == below.push(Token::GroupStart) + children,
        forall|i: int| 0 <= i < children.len() ==> !(#[trigger] children[i] is GroupStart),
    ensures
        children_of(f.stack) == children,
        below_group(f.stack) == below,
{
    let g = below.len() as int;
    assert(f.stack[g] is GroupStart);
    assert forall|i: int| g < i < f.stack.len() implies !(#[trigger] f.stack[i] is GroupStart) by {
        assert(f.stack[i] == children[i - g - 1]);
    }
    lemma_group_start_is(f.stack, g);
    assert(children_of(f.stack) =~= children);
    assert(below_group(f.stack) =~= below);
}

proof fn lemma_settled_after_close(f: Scan)
    requires
        idle(f),
    ensures
        !close(f).failed ==> idle(close(f)),
{
}

/// Reading arguments, each after a space, puts them on the stack one by
/// one.
proof fn lemma_scan_args(r: Scan, args: Seq<Node>)
    requires
        settled(r),
        forall|i: int| 0 <= i < args.len() ==> well_formed(#[trigger] args[i]),
        forall|i: int| 0 <= i < args.len() ==> reads_back(#[trigger] args[i]),
    ensures
        settled(scan(r, render_args(args))),
        flush(scan(r, render_args(args))).stack == flush(r).stack + tokens_for(args),
    decreases args,
{
    if args.len() == 0 {
        assert(flush(r).stack + tokens_for(args) =~= flush(r).stack);
    } else {
        let before = args.drop_last();
        let last = args.last();
        assert forall|i: int| 0 <= i < before.len() implies well_formed(#[trigger] before[i]) by {
            assert(before[i] == args[i]);
        }
        assert forall|i: int| 0 <= i < before.len() implies reads_back(#[trigger] before[i]) by {
            assert(before[i] == args[i]);
        }
        lemma_scan_args(r, before);
        let r1 = scan(r, render_args(before));
        let s1 = step(r1, ' ');
        lemma_scan_one(r1, ' ');
        lemma_flush_settled(r1);
        assert(well_formed(last) && reads_back(last));
        lemma_scan_node(s1, last);
        lemma_scan_concat(r, render_args(before) + seq![' '], spec_render(last));
        lemma_scan_concat(r, render_args(before), seq![' ']);
        assert(flush(r).stack + tokens_for(before) + seq![token_of(last)] =~= flush(r).stack
            + tokens_for(args));
        assert((flush(r).stack + tokens_for(before)).push(token_of(last)) =~= flush(r).stack
            + tokens_for(before) + seq![token_of(last)]);
    }
}

/// Reading the elements of a list puts them on the stack one by one.
proof fn lemma_scan_elems(s: Scan, elems: Seq<Node>)
    requires
        idle(s),
        elems.len() > 0 ==> is_form(elems[0]),
        forall|i: int| 0 <= i < elems.len() ==> well_formed(#[trigger] elems[i]),
        forall|i: int| 0 <= i < elems.len() ==> reads_back(#[trigger] elems[i]),
    ensures
        settled(scan(s, render_elems(elems))),
        flush(scan(s, render_elems(elems))).stack == s.stack + tokens_for(elems),
    decreases elems,
{
    if elems.len() == 0 {
        assert(s.stack + tokens_for(elems) =~= s.stack);
    } else {
        let first = elems.first();
        let rest = elems.drop_first();
        assert forall|i: int| 0 <= i < rest.len() implies well_formed(#[trigger] rest[i]) by {
            assert(rest[i] == elems[i + 1]);
        }
        assert forall|i: int| 0 <= i < rest.len() implies reads_back(#[trigger] rest[i]) by {
            assert(rest[i] == elems[i + 1]);
        }
        assert(well_formed(elems[0]) && reads_back(elems[0]));
        lemma_scan_node(s, first);
        let r = scan(s, spec_render(first));
        lemma_scan_args(r, rest);
        lemma_scan_concat(s, spec_render(first), render_args(rest));
        assert(s.stack.push(token_of(first)) + tokens_for(rest) =~= s.stack + tokens_for(elems));
    }
}

/// Reading the canonical text of a form gives the form again, if the form
/// is well formed and each of its names and string literals is
/// self-delimiting.
pub proof fn lemma_parse_render(n: Node)
    requires
        is_form(n),
        well_formed(n),
        reads_back(n),
    ensures
        spec_parse(spec_render(n)) == Ok::<Node, crate::sexpr::error::ParseError>(n),
{
    let s = initial();
    lemma_scan_node(s, n);
    let r = scan(s, spec_render(n));
    assert(s.stack.push(token_of(n)) =~= seq![Token::Sub(n)]);
}

/// What holds of every entry that the scanner puts on its stack.
pub open spec fn sound_token(t: Token) -> bool {
    match t {
        Token::Number(text) => is_canonical(text),
        Token::Symbol(name) => name.len() > 0 && classify(name) == Token::Symbol(name),
        Token::Sub(node) => is_form(node) && well_formed(node),
        _ => true,
    }
}

/// Every entry of the stack is sound.
pub open spec fn sound_stack(stack: Seq<Token>) -> bool {
    forall|i: int| 0 <= i < stack.len() ==> sound_token(#[trigger] stack[i])
}

proof fn lemma_classify_sound(text: Seq<char>)
    requires
        text.len() > 0,
    ensures
        sound_token(classify(text)),
{
    if !is_quoted(text) && is_number(text) {
        lemma_canonical_is_canonical(text);
    }
}

proof fn lemma_build_sound(children: Seq<Token>)
    requires
        sound_stack(children),
        build(children) is Ok,
    ensures
        is_form(build(children)->Ok_0),
        well_formed(build(children)->Ok_0),
{
    let node = build(children)->Ok_0;
    assert(sound_token(children[0]));
    match node {
        Node::Call(name, args) => {
            assert forall|i: int| 0 <= i < args.len() implies well_formed(#[trigger] args[i]) by {
                assert(sound_token(children[i + 1]));
                assert(args[i] == node_of(children.drop_first()[i]));
            }
        },
        Node::List(elems) => {
            assert forall|i: int| 0 <= i < elems.len() implies well_formed(
                #[trigger] elems[i],
            ) by {
                assert(sound_token(children[i]));
                assert(elems[i] == node_of(children[i]));
            }
            assert(elems[0] == node_of(children[0]));
        },
        _ => {},
    }
}

proof fn lemma_step_sound(s: Scan, c: char)
    requires
        sound_stack(s.stack),
    ensures
        sound_stack(step(s, c).stack),
{
    if !s.failed && c != '"' && !s.in_string {
        if c == '(' {
            let t = step(s, c).stack;
            assert forall|i: int| 0 <= i < t.len() implies sound_token(#[trigger] t[i]) by {
                if i < s.stack.len() {
                    assert(t[i] == s.stack[i]);
                }
            }
        } else if c == ' ' || c == '\n' || c == ')' {
            let f = flush(s);
            assert(sound_stack(f.stack)) by {
                if s.current.len() > 0 {
                    lemma_classify_sound(s.current);
                }
                assert forall|i: int| 0 <= i < f.stack.len() implies sound_token(
                    #[trigger] f.stack[i],
                ) by {
                    if i < s.stack.len() {
                        assert(f.stack[i] == s.stack[i]);
                    }
                }
            }
            if c == ')' {
                let children = children_of(f.stack);
                let below = below_group(f.stack);
                let t = close(f).stack;
                let g = group_start(f.stack);
                lemma_group_start_bounds(f.stack);
                assert forall|i: int| 0 <= i < children.len() implies sound_token(
                    #[trigger] children[i],
                ) by {
                    assert(children[i] == f.stack[i + g + 1]);
                }
                if children.len() > 0 && build(children) is Ok {
                    lemma_build_sound(children);
                }
                assert forall|i: int| 0 <= i < t.len() implies sound_token(#[trigger] t[i]) by {
                    if !close(f).failed && i < below.len() {
                        assert(t[i] == f.stack[i]);
                    }
                }
            }
        }
    }
}

/// The last mark lies on the stack, or there is none.
pub proof fn lemma_group_start_bounds(stack: Seq<Token>)
    ensures
        -1 <= group_start(stack) < stack.len(),
    decreases stack.len(),
{
    if stack.len() > 0 && !(stack.last() is GroupStart) {
        lemma_group_start_bounds(stack.drop_last());
    }
}

proof fn lemma_scan_sound(s: Scan, input: Seq<char>)
    requires
        sound_stack(s.stack),
    ensures
        sound_stack(scan(s, input).stack),
    decreases input.len(),
{
    if input.len() > 0 {
        lemma_scan_sound(s, input.drop_last());
        lemma_step_sound(scan(s, input.drop_last()), input.last());
    }
}

/// Whatever the reader yields is a well-formed form.
pub proof fn lemma_parse_well_formed(input: Seq<char>)
    requires
        spec_parse(input) is Ok,
    ensures
        is_form(spec_parse(input)->Ok_0),
        well_formed(spec_parse(input)->Ok_0),
{
    lemma_scan_sound(initial(), input);
    let r = scan(initial(), input);
    assert(sound_token(r.stack[0]));
}

/// Rendering is a canonicalizing round trip: the canonical text of what was
/// read from `input` is read as the same tree, provided that each name and
/// string literal of that tree is self-delimiting.
pub proof fn lemma_round_trip(input: Seq<char>)
    requires
        spec_parse(input) is Ok,
        reads_back(spec_parse(input)->Ok_0),
    ensures
        spec_parse(spec_render(spec_parse(input)->Ok_0)) == spec_parse(input),
{
    lemma_parse_well_formed(input);
    lemma_parse_render(spec_parse(input)->Ok_0);
}

/// A double quote stands directly after a backslash somewhere in `input`.
pub open spec fn has_escaped_quote(input: Seq<char>) -> bool {
    exists|i: int| 0 < i < input.len() && input[i - 1] == '\\' && #[trigger] input[i] == '"'
}

/// What holds of a stack entry whose text came off the input as it stood.
pub open spec fn verbatim_token(t: Token) -> bool {
    match t {
        Token::Symbol(name) => self_delimiting(name),
        Token::Text(s) => self_delimiting(seq!['"'] + s + seq!['"']),
        Token::Sub(node) => reads_back(node),
        _ => true,
    }
}

/// What holds of the scanner as long as no double quote has taken the place
/// of a backslash: every text that it holds came off the input as it stood.
pub open spec fn verbatim_state(s: Scan) -> bool {
    &&& reads_verbatim(s.current)
    &&& s.in_string == ends_in_string(s.current)
    &&& s.failed ==> !s.in_string
    &&& forall|i: int| 0 <= i < s.shelved.len() ==> self_delimiting(#[trigger] s.shelved[i])
    &&& forall|i: int| 0 <= i < s.stack.len() ==> verbatim_token(#[trigger] s.stack[i])
}

proof fn lemma_classify_verbatim(text: Seq<char>)
    requires
        self_delimiting(text),
    ensures
        verbatim_token(classify(text)),
{
    if is_quoted(text) {
        assert(seq!['"'] + text.subrange(1, text.len() - 1) + seq!['"'] =~= text);
    }
}

proof fn lemma_build_verbatim(children: Seq<Token>)
    requires
        forall|i: int| 0 <= i < children.len() ==> verbatim_token(#[trigger] children[i]),
        build(children) is Ok,
    ensures
        reads_back(build(children)->Ok_0),
{
    let node = build(children)->Ok_0;
    assert(verbatim_token(children[0]));
    match node {
        Node::Call(name, args) => {
            assert forall|i: int| 0 <= i < args.len() implies reads_back(#[trigger] args[i]) by {
                assert(verbatim_token(children[i + 1]));
                assert(args[i] == node_of(children.drop_first()[i]));
            }
        },
        Node::List(elems) => {
            assert forall|i: int| 0 <= i < elems.len() implies reads_back(#[trigger] elems[i]) by {
                assert(verbatim_token(children[i]));
                assert(elems[i] == node_of(children[i]));
            }
        },
        _ => {},
    }
}

proof fn lemma_step_verbatim(s: Scan, c: char)
    requires
        verbatim_state(s),
        !(escaping(s) && c == '"'),
    ensures
        verbatim_state(step(s, c)),
{
    let r = step(s, c);
    if s.failed {
    } else if c == '"' || s.in_string {
        assert(r.current.drop_last() =~= s.current);
    } else if c == '(' {
        assert forall|i: int| 0 <= i < r.shelved.len() implies self_delimiting(
            #[trigger] r.shelved[i],
        ) by {
            if i < s.shelved.len() {
                assert(r.shelved[i] == s.shelved[i]);
            }
        }
        assert forall|i: int| 0 <= i < r.stack.len() implies verbatim_token(
            #[trigger] r.stack[i],
        ) by {
            if i < s.stack.len() {
                assert(r.stack[i] == s.stack[i]);
            }
        }
    } else if c == ' ' || c == '\n' || c == ')' {
        let f = flush(s);
        assert(verbatim_state(f)) by {
            lemma_classify_verbatim(s.current);
            if s.shelved.len() > 0 {
                assert(self_delimiting(s.shelved[s.shelved.len() - 1]));
            }
            assert forall|i: int| 0 <= i < f.shelved.len() implies self_delimiting(
                #[trigger] f.shelved[i],
            ) by {
                assert(f.shelved[i] == s.shelved[i]);
            }
            assert forall|i: int| 0 <= i < f.stack.len() implies verbatim_token(
                #[trigger] f.stack[i],
            ) by {
                if i < s.stack.len() {
                    assert(f.stack[i] == s.stack[i]);
                }
            }
        }
        if c == ')' {
            let children = children_of(f.stack);
            let below = below_group(f.stack);
            let g = group_start(f.stack);
            lemma_group_start_bounds(f.stack);
            assert forall|i: int| 0 <= i < children.len() implies verbatim_token(
                #[trigger] children[i],
            ) by {
                assert(children[i] == f.stack[i + g + 1]);
            }
            if children.len() > 0 && build(children) is Ok {
                lemma_build_verbatim(children);
            }
            assert forall|i: int| 0 <= i < r.stack.len() implies verbatim_token(
                #[trigger] r.stack[i],
            ) by {
                if !r.failed && i < below.len() {
                    assert(r.stack[i] == f.stack[i]);
                }
            }
        }
    } else {
        assert(r.current.drop_last() =~= s.current);
    }
}

/// Inside a string literal the token that is being read ends in the
/// character that was read last.
proof fn lemma_scan_last_char(input: Seq<char>)
    ensures
        ({
            let r = scan(initial(), input);
            r.in_string ==> input.len() > 0 && r.current.len() > 0 && r.current.last()
                == input.last()
        }),
    decreases input.len(),
{
    if input.len() > 0 {
        lemma_scan_in_string(initial(), input.drop_last());
    }
}

/// A failed scan is outside every string literal.
proof fn lemma_scan_in_string(s: Scan, input: Seq<char>)
    requires
        s.failed ==> !s.in_string,
    ensures
        scan(s, input).failed ==> !scan(s, input).in_string,
    decreases input.len(),
{
    if input.len() > 0 {
        lemma_scan_in_string(s, input.drop_last());
    }
}

/// How often, while `input` is read from state `s`, a double quote takes the
/// place of a backslash.
pub open spec fn escapes(s: Scan, input: Seq<char>) -> nat
    decreases input.len(),
{
    if input.len() == 0 {
        0
    } else {
        let before = scan(s, input.drop_last());
        escapes(s, input.drop_last()) + if !before.failed && escaping(before) && input.last()
            == '"' {
            1nat
        } else {
            0nat
        }
    }
}

/// As long as no double quote has taken the place of a backslash, every text
/// that the scanner holds came off the input as it stood.
proof fn lemma_scan_verbatim(input: Seq<char>)
    requires
        escapes(initial(), input) == 0,
    ensures
        verbatim_state(scan(initial(), input)),
    decreases input.len(),
{
    if input.len() > 0 {
        let before = input.drop_last();
        lemma_scan_verbatim(before);
        lemma_scan_in_string(initial(), before);
        lemma_step_verbatim(scan(initial(), before), input.last());
    }
}

/// Where no double quote stands directly after a backslash, none takes the
/// place of one.
proof fn lemma_plain_input_escapes(input: Seq<char>)
    requires
        !has_escaped_quote(input),
    ensures
        escapes(initial(), input) == 0,
    decreases input.len(),
{
    if input.len() > 0 {
        let before = input.drop_last();
        assert(!has_escaped_quote(before)) by {
            if has_escaped_quote(before) {
                let i = choose|i: int|
                    0 < i < before.len() && before[i - 1] == '\\' && #[trigger] before[i] == '"';
                assert(input[i - 1] == '\\' && input[i] == '"');
            }
        }
        lemma_plain_input_escapes(before);
        lemma_scan_last_char(before);
        let s = scan(initial(), before);
        if escaping(s) && input.last() == '"' {
            let i = input.len() - 1;
            assert(input[i - 1] == before.last());
            assert(input[i - 1] == '\\' && input[i] == '"');
        }
    }
}

/// In what is read from a text in which no double quote stands directly
/// after a backslash, every name and string literal is self-delimiting.
pub proof fn lemma_plain_input_reads_back(input: Seq<char>)
    requires
        spec_parse(input) is Ok,
        !has_escaped_quote(input),
    ensures
        reads_back(spec_parse(input)->Ok_0),
{
    lemma_plain_input_escapes(input);
    lemma_scan_verbatim(input);
    let r = scan(initial(), input);
    assert(verbatim_token(r.stack[0]));
}

/// The round trip for texts without escaped quotes: where no double quote
/// stands directly after a backslash in `input`, the canonical text of what
/// was read from `input` is read as the same tree.
pub proof fn lemma_round_trip_without_escapes(input: Seq<char>)
    requires
        spec_parse(input) is Ok,
        !has_escaped_quote(input),
    ensures
        spec_parse(spec_render(spec_parse(input)->Ok_0)) == spec_parse(input),
{
    lemma_plain_input_reads_back(input);
    lemma_round_trip(input);
}

/// The number of backslashes in `text`.
pub open spec fn backslashes(text: Seq<char>) -> nat
    decreases text.len(),
{
    if text.len() == 0 {
        0
    } else {
        backslashes(text.drop_last()) + if text.last() == '\\' {
            1nat
        } else {
            0nat
        }
    }
}

/// The number of backslashes in the names, string literals and numbers of a
/// tree.
pub open spec fn node_backslashes(n: Node) -> nat
    decreases n,
{
    match n {
        Node::Number(text) => backslashes(text),
        Node::Text(s) => backslashes(s),
        Node::Bool(_) => 0,
        Node::Call(name, args) => backslashes(name) + nodes_backslashes(args),
        Node::List(elems) => nodes_backslashes(elems),
    }
}

/// The number of backslashes in several trees.
pub open spec fn nodes_backslashes(nodes: Seq<Node>) -> nat
    decreases nodes,
{
    if nodes.len() == 0 {
        0
    } else {
        nodes_backslashes(nodes.drop_last()) + node_backslashes(nodes.last())
    }
}

/// The number of backslashes in a stack entry.
pub open spec fn token_backslashes(t: Token) -> nat {
    match t {
        Token::GroupStart => 0,
        Token::Number(text) => backslashes(text),
        Token::Text(s) => backslashes(s),
        Token::Symbol(name) => backslashes(name),
        Token::Bool(_) => 0,
        Token::Sub(node) => node_backslashes(node),
    }
}

/// The number of backslashes on a stack.
pub open spec fn stack_backslashes(stack: Seq<Token>) -> nat
    decreases stack.len(),
{
    if stack.len() == 0 {
        0
    } else {
        stack_backslashes(stack.drop_last()) + token_backslashes(stack.last())
    }
}

/// The number of backslashes in the texts that were set aside.
pub open spec fn shelf_backslashes(shelved: Seq<Seq<char>>) -> nat
    decreases shelved.len(),
{
    if shelved.len() == 0 {
        0
    } else {
        shelf_backslashes(shelved.drop_last()) + backslashes(shelved.last())
    }
}

/// The number of backslashes that the scanner holds.
pub open spec fn state_backslashes(s: Scan) -> nat {
    backslashes(s.current) + shelf_backslashes(s.shelved) + stack_backslashes(s.stack)
}

proof fn lemma_backslashes_concat(a: Seq<char>, b: Seq<char>)
    ensures
        backslashes(a + b) == backslashes(a) + backslashes(b),
    decreases b.len(),
{
    if b.len() == 0 {
        assert(a + b =~= a);
    } else {
        lemma_backslashes_concat(a, b.drop_last());
        assert((a + b).drop_last() =~= a + b.drop_last());
    }
}

proof fn lemma_backslashes_one(c: char)
    ensures
        backslashes(seq![c]) == if c == '\\' {
            1nat
        } else {
            0nat
        },
{
    assert(seq![c].drop_last() =~= Seq::<char>::empty());
    assert(backslashes(Seq::<char>::empty()) == 0);
    assert(seq![c].last() == c);
}

proof fn lemma_no_backslash(text: Seq<char>)
    requires
        forall|i: int| 0 <= i < text.len() ==> #[trigger] text[i] != '\\',
    ensures
        backslashes(text) == 0,
    decreases text.len(),
{
    if text.len() > 0 {
        lemma_no_backslash(text.drop_last());
        assert(text[text.len() - 1] != '\\');
    }
}

proof fn lemma_stack_backslashes_concat(a: Seq<Token>, b: Seq<Token>)
    ensures
        stack_backslashes(a + b) == stack_backslashes(a) + stack_backslashes(b),
    decreases b.len(),
{
    if b.len() == 0 {
        assert(a + b =~= a);
    } else {
        lemma_stack_backslashes_concat(a, b.drop_last());
        assert((a + b).drop_last() =~= a + b.drop_last());
    }
}

proof fn lemma_stack_backslashes_one(t: Token)
    ensures
        stack_backslashes(seq![t]) == token_backslashes(t),
{
    assert(seq![t].drop_last() =~= Seq::<Token>::empty());
    assert(stack_backslashes(Seq::<Token>::empty()) == 0);
}

proof fn lemma_nodes_backslashes_concat(a: Seq<Node>, b: Seq<Node>)
    ensures
        nodes_backslashes(a + b) == nodes_backslashes(a) + nodes_backslashes(b),
    decreases b.len(),
{
    if b.len() == 0 {
        assert(a + b =~= a);
    } else {
        lemma_nodes_backslashes_concat(a, b.drop_last());
        assert((a + b).drop_last() =~= a + b.drop_last());
    }
}

proof fn lemma_nodes_backslashes_one(n: Node)
    ensures
        nodes_backslashes(seq![n]) == node_backslashes(n),
{
    assert(seq![n].drop_last() =~= Seq::<Node>::empty());
    assert(nodes_backslashes(Seq::<Node>::empty()) == 0);
}

/// Children keep their backslashes when they become nodes.
proof fn lemma_nodes_from_backslashes(children: Seq<Token>)
    ensures
        nodes_backslashes(nodes_from(children)) == stack_backslashes(children),
    decreases children.len(),
{
    if children.len() > 0 {
        lemma_nodes_from_backslashes(children.drop_last());
        assert(nodes_from(children).drop_last() =~= nodes_from(children.drop_last()));
        assert(nodes_from(children).last() == node_of(children.last()));
        assert(nodes_backslashes(Seq::<Node>::empty()) == 0);
        assert(node_backslashes(node_of(children.last())) == token_backslashes(children.last()));
    } else {
        assert(nodes_from(children).len() == 0);
    }
}

/// A form holds the backslashes of its children.
proof fn lemma_build_backslashes(children: Seq<Token>)
    requires
        build(children) is Ok,
    ensures
        node_backslashes(build(children)->Ok_0) == stack_backslashes(children),
{
    let head = seq![children[0]];
    let tail = children.drop_first();
    assert(head + tail =~= children);
    lemma_stack_backslashes_concat(head, tail);
    lemma_stack_backslashes_one(children[0]);
    lemma_nodes_from_backslashes(tail);
    lemma_nodes_from_backslashes(children);
}

/// The canonical text of a tree holds the backslashes of the tree.
proof fn lemma_render_backslashes(n: Node)
    ensures
        backslashes(spec_render(n)) == node_backslashes(n),
    decreases n,
{
    let open = seq!['('];
    let shut = seq![')'];
    lemma_backslashes_one('(');
    lemma_backslashes_one(')');
    match n {
        Node::Number(_) => {},
        Node::Text(s) => {
            let quote = seq!['"'];
            lemma_backslashes_one('"');
            lemma_backslashes_concat(quote + s, quote);
            lemma_backslashes_concat(quote, s);
        },
        Node::Bool(_) => {
            lemma_no_backslash(spec_render(n));
        },
        Node::Call(name, args) => {
            lemma_render_args_backslashes(args);
            lemma_backslashes_concat(open + name + render_args(args), shut);
            lemma_backslashes_concat(open + name, render_args(args));
            lemma_backslashes_concat(open, name);
        },
        Node::List(elems) => {
            lemma_backslashes_concat(open + render_elems(elems), shut);
            lemma_backslashes_concat(open, render_elems(elems));
            if elems.len() > 0 {
                let first = seq![elems.first()];
                let rest = elems.drop_first();
                lemma_render_backslashes(elems.first());
                lemma_render_args_backslashes(rest);
                lemma_backslashes_concat(spec_render(elems.first()), render_args(rest));
                assert(first + rest =~= elems);
                lemma_nodes_backslashes_concat(first, rest);
                lemma_nodes_backslashes_one(elems.first());
            }
        },
    }
}

proof fn lemma_render_args_backslashes(args: Seq<Node>)
    ensures
        backslashes(render_args(args)) == nodes_backslashes(args),
    decreases args,
{
    if args.len() > 0 {
        lemma_render_args_backslashes(args.drop_last());
        lemma_render_backslashes(args.last());
        lemma_backslashes_one(' ');
        lemma_backslashes_concat(
            render_args(args.drop_last()) + seq![' '],
            spec_render(args.last()),
        );
        lemma_backslashes_concat(render_args(args.drop_last()), seq![' ']);
    }
}

/// A token holds no more backslashes than its text.
proof fn lemma_classify_backslashes(text: Seq<char>)
    ensures
        token_backslashes(classify(text)) <= backslashes(text),
{
    if is_quoted(text) {
        let quote = seq!['"'];
        let inner = text.subrange(1, text.len() - 1);
        assert(quote + inner + quote =~= text);
        lemma_backslashes_one('"');
        lemma_backslashes_concat(quote + inner, quote);
        lemma_backslashes_concat(quote, inner);
    } else if is_number(text) {
        lemma_canonical_is_canonical(text);
        let number = crate::sexpr::decimal::canonical(text);
        lemma_number_chars(number);
        assert forall|i: int| 0 <= i < number.len() implies #[trigger] number[i] != '\\' by {
            assert(is_digit(number[i]) || number[i] == '.');
        }
        lemma_no_backslash(number);
    }
}

proof fn lemma_flush_backslashes(s: Scan)
    ensures
        state_backslashes(flush(s)) <= state_backslashes(s),
{
    lemma_classify_backslashes(s.current);
    let f = flush(s);
    if s.current.len() > 0 {
        assert(f.stack.drop_last() =~= s.stack);
    }
    if s.shelved.len() == 0 {
        assert(backslashes(f.current) == 0);
    }
}

proof fn lemma_close_backslashes(f: Scan)
    ensures
        state_backslashes(close(f)) <= state_backslashes(f),
{
    let r = close(f);
    let children = children_of(f.stack);
    if children.len() == 0 || build(children) is Ok {
        let g = group_start(f.stack);
        lemma_group_start_bounds(f.stack);
        let below = below_group(f.stack);
        let node = r.stack.last();
        assert(r.stack.drop_last() =~= below);
        assert(token_backslashes(node) == stack_backslashes(children)) by {
            if children.len() > 0 {
                lemma_build_backslashes(children);
            } else {
                assert(nodes_backslashes(Seq::<Node>::empty()) == 0);
            }
        }
        if g >= 0 {
            let mark = seq![f.stack[g]];
            lemma_group_start_is_mark(f.stack);
            assert(below + mark + children =~= f.stack);
            lemma_stack_backslashes_concat(below + mark, children);
            lemma_stack_backslashes_concat(below, mark);
            lemma_stack_backslashes_one(f.stack[g]);
        } else {
            assert(children =~= f.stack);
        }
    }
}

/// Where the last mark is said to lie, a mark lies.
proof fn lemma_group_start_is_mark(stack: Seq<Token>)
    requires
        group_start(stack) >= 0,
    ensures
        stack[group_start(stack)] is GroupStart,
    decreases stack.len(),
{
    lemma_group_start_bounds(stack);
    if stack.len() > 0 && !(stack.last() is GroupStart) {
        lemma_group_start_bounds(stack.drop_last());
        lemma_group_start_is_mark(stack.drop_last());
    }
}

/// A step loses a backslash where a double quote takes its place, and gains
/// none but the one it reads.
proof fn lemma_step_backslashes(s: Scan, c: char)
    ensures
        state_backslashes(step(s, c)) + escapes(s, seq![c]) <= state_backslashes(s)
            + backslashes(seq![c]),
{
    lemma_backslashes_one(c);
    assert(seq![c].drop_last() =~= Seq::<char>::empty());
    assert(scan(s, Seq::<char>::empty()) == s);
    assert(escapes(s, Seq::<char>::empty()) == 0);
    let r = step(s, c);
    if s.failed {
    } else if c == '"' || s.in_string {
        if c == '"' && escaping(s) {
            assert(r.current.drop_last() =~= s.current.drop_last());
        } else {
            assert(r.current.drop_last() =~= s.current);
        }
    } else if c == '(' {
        assert(r.shelved.drop_last() =~= s.shelved);
        assert(r.stack.drop_last() =~= s.stack);
    } else if c == ' ' || c == '\n' {
        lemma_flush_backslashes(s);
    } else if c == ')' {
        lemma_flush_backslashes(s);
        lemma_close_backslashes(flush(s));
    } else {
        assert(r.current.drop_last() =~= s.current);
    }
}

proof fn lemma_scan_backslashes(input: Seq<char>)
    ensures
        state_backslashes(scan(initial(), input)) + escapes(initial(), input) <= backslashes(
            input,
        ),
    decreases input.len(),
{
    if input.len() > 0 {
        let before = input.drop_last();
        lemma_scan_backslashes(before);
        let s = scan(initial(), before);
        lemma_step_backslashes(s, input.last());
        assert(seq![input.last()].drop_last() =~= Seq::<char>::empty());
        assert(scan(s, Seq::<char>::empty()) == s);
        assert(escapes(s, Seq::<char>::empty()) == 0);
        lemma_backslashes_one(input.last());
    } else {
        assert(shelf_backslashes(initial().shelved) == 0);
    }
}

/// A tree whose canonical text is read as the tree again has only
/// self-delimiting names and string literals.
pub proof fn lemma_read_again_reads_back(n: Node)
    requires
        spec_parse(spec_render(n)) == Ok::<Node, crate::sexpr::error::ParseError>(n),
    ensures
        reads_back(n),
{
    let text = spec_render(n);
    let r = scan(initial(), text);
    lemma_render_backslashes(n);
    lemma_scan_backslashes(text);
    assert(r.stack[0] == Token::Sub(n));
    assert(r.stack =~= seq![Token::Sub(n)]);
    lemma_stack_backslashes_one(Token::Sub(n));
    assert(escapes(initial(), text) == 0);
    lemma_scan_verbatim(text);
    assert(verbatim_token(r.stack[0]));
}

/// The round trip holds of exactly those texts that are read as a tree
/// whose names and string literals are all self-delimiting.
pub proof fn lemma_round_trip_iff(input: Seq<char>)
    requires
        spec_parse(input) is Ok,
    ensures
        spec_parse(spec_render(spec_parse(input)->Ok_0)) == spec_parse(input) <==> reads_back(
            spec_parse(input)->Ok_0,
        ),
{
    let tree = spec_parse(input)->Ok_0;
    if reads_back(tree) {
        lemma_round_trip(input);
    }
    if spec_parse(spec_render(tree)) == spec_parse(input) {
        lemma_read_again_reads_back(tree);
    }
}

} // verus!
