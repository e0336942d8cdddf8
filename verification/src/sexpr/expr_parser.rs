//! The classifier: from the text of one token to a typed literal or a
//! symbol.

use vstd::prelude::*;
use crate::sexpr::decimal::{canonical, is_number, Decimal};
use crate::sexpr::error::ParseError;
use crate::sexpr::expr::{false_text, true_text};
use crate::sexpr::sexpr_parser::{Expr, Token};
use crate::sexpr::text::{chars_of, push_chars, string_of};

verus! {

/// At least two characters, the first and the last a double quote.
pub open spec fn is_quoted(text: Seq<char>) -> bool {
    text.len() >= 2 && text.first() == '"' && text.last() == '"'
}

/// The kind and value of a token. The first rule that applies decides:
/// quoted text is a string literal, which loses the two quotes; a number
/// literal is a number; `true` and `false` are booleans; anything else, the
/// empty text too, is a symbol.
pub open spec fn classify(text: Seq<char>) -> Token {
    if is_quoted(text) {
        Token::Text(text.subrange(1, text.len() - 1))
    } else if is_number(text) {
        Token::Number(canonical(text))
    } else if text == true_text() {
        Token::Bool(true)
    } else if text == false_text() {
        Token::Bool(false)
    } else {
        Token::Symbol(text)
    }
}

/// Classifies the token whose characters are `chars`.
pub fn classify_chars(chars: Vec<char>) -> (e: Expr)
    ensures
        e@ == classify(chars@),
{
    let n = chars.len();
    if n >= 2 && chars[0] == '"' && chars[n - 1] == '"' {
        let mut inner = String::new();
        push_chars(&mut inner, &chars, 1, n - 1);
        return Expr::StringExpr(inner);
    }
    match Decimal::from_chars(&chars) {
        Some(d) => {
            return Expr::NumberExpr(d);
        },
        None => {},
    }
    if n == 4 && chars[0] == 't' && chars[1] == 'r' && chars[2] == 'u' && chars[3] == 'e' {
        assert(chars@ =~= true_text());
        return Expr::BoolExpr(true);
    }
    if n == 5 && chars[0] == 'f' && chars[1] == 'a' && chars[2] == 'l' && chars[3] == 's'
        && chars[4] == 'e' {
        assert(chars@ =~= false_text());
        return Expr::BoolExpr(false);
    }
    assert(chars@ != true_text()) by {
        if chars@ == true_text() {
            assert(true_text().len() == 4);
        }
    }
    assert(chars@ != false_text()) by {
        if chars@ == false_text() {
            assert(false_text().len() == 5);
        }
    }
    Expr::FuncExpr(string_of(&chars))
}

/// Classifies one token. Every text has a kind, so the result is always
/// `Ok`.
pub fn parse_expr(sexpr: String) -> (r: Result<Expr, ParseError>)
    ensures
        r matches Ok(e) && e@ == classify(sexpr@),
{
    Ok(classify_chars(chars_of(sexpr.as_str())))
}

} // verus!
