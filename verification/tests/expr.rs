use sexpr_reader::sexpr::decimal::Decimal;
use sexpr_reader::sexpr::expr::SExpr;
use sexpr_reader::sexpr::expr::SExpr::{SBool, SFunc, SList, SNumber, SString};

fn number(value: f64) -> SExpr {
    SNumber(Decimal::from_text(&format!("{}", value)).unwrap())
}

#[test]
fn test_debug() {
    let expr = SFunc(String::from("+"), vec![
        SFunc(String::from("*"), vec![number(2.0), number(3.0)]),
        SFunc(String::from("/"), vec![number(10.0), number(5.0)]),
    ]);

    let sexpr = expr.render();
    assert_eq!(sexpr, "(+ (* 2 3) (/ 10 5))")
}

#[test]
fn test_debug_with_floats() {
    let expr = SFunc(String::from("+"), vec![
        SFunc(String::from("*"), vec![number(2.5), number(3.5)]),
        SFunc(String::from("/"), vec![number(7.5), number(2.5)]),
    ]);

    let sexpr = expr.render();
    assert_eq!(sexpr, "(+ (* 2.5 3.5) (/ 7.5 2.5))")
}

#[test]
fn test_debug_with_strings() {
    let expr = SFunc(String::from("println"), vec![
        SFunc(
            String::from("concat"),
            vec![SString(String::from("hello ")), SString(String::from("world"))],
        ),
    ]);

    let sexpr = expr.render();
    assert_eq!(sexpr, "(println (concat \"hello \" \"world\"))");
}

#[test]
fn test_debug_empty() {
    let expr = SList(vec![]);
    let sexpr = expr.render();
    assert_eq!(sexpr, "()")
}

#[test]
fn expr_test_list() {
    let expr = SList(vec![
        SFunc(
            String::from("if"),
            vec![
                SFunc(String::from(">"), vec![number(5.0), number(3.0)]),
                SFunc(String::from("println"), vec![SString(String::from("greater"))]),
                SFunc(String::from("println"), vec![SString(String::from("less"))]),
            ],
        ),
    ]);

    let sexpr = expr.render();
    assert_eq!(sexpr, r#"((if (> 5 3) (println "greater") (println "less")))"#)
}

#[test]
fn test_boolean() {
    let expr = SFunc(String::from("and"), vec![SBool(true), SBool(false)]);

    let sexpr = expr.render();
    assert_eq!(sexpr, r#"(and true false)"#)
}

#[test]
fn render_writes_quotes_inside_a_string_as_they_are() {
    let expr = SFunc(String::from("say"), vec![SString(String::from("a\"b"))]);
    assert_eq!(expr.render(), "(say \"a\"b\")");
}

#[test]
fn render_appends_to_what_is_there() {
    let mut out = String::from("> ");
    SList(vec![SFunc(String::from("f"), vec![]), SBool(true)]).render_into(&mut out);
    assert_eq!(out, "> ((f) true)");
}
