use sexpr_reader::sexpr::decimal::Decimal;
use sexpr_reader::sexpr::error::ParseError;
use sexpr_reader::sexpr::expr::SExpr;
use sexpr_reader::sexpr::expr::SExpr::{SFunc, SList, SNumber, SString};
use sexpr_reader::sexpr::parse_to_ast::parse;
use sexpr_reader::sexpr::sexpr_parser::Expr;
use sexpr_reader::sexpr::sexpr_parser::Expr::{
    AstExpr, BoolExpr, ElemStartTerminator, FuncExpr, NumberExpr, StringExpr,
};

fn decimal(value: f64) -> Decimal {
    Decimal::from_text(&format!("{}", value)).unwrap()
}

fn number_expr(value: f64) -> Expr {
    NumberExpr(decimal(value))
}

fn number(value: f64) -> SExpr {
    SNumber(decimal(value))
}

#[test]
fn test_string_function_call() {
    let expressions = vec![
        FuncExpr(String::from("concat")),
        StringExpr(String::from("hello")),
        StringExpr(String::from(" ")),
        StringExpr(String::from("world")),
    ];

    let ast = parse(expressions).unwrap();
    let sexpr = ast.render();

    assert_eq!(sexpr, r#"(concat "hello" " " "world")"#)
}

#[test]
fn test_int_function_call() {
    let expressions = vec![FuncExpr(String::from("add")), number_expr(5.0), number_expr(4.0)];

    let ast = parse(expressions).unwrap();
    let sexpr = ast.render();

    assert_eq!(sexpr, r#"(add 5 4)"#)
}

#[test]
fn test_float_function_call() {
    let expressions = vec![FuncExpr(String::from("add")), number_expr(5.5), number_expr(4.5)];

    let ast = parse(expressions).unwrap();
    let sexpr = ast.render();

    assert_eq!(sexpr, r#"(add 5.5 4.5)"#)
}

#[test]
fn parse_to_ast_test_list() {
    let expressions = vec![
        AstExpr(SFunc(String::from("add"), vec![number(5.3), number(4.7)])),
        AstExpr(SFunc(String::from("println"), vec![SString(String::from("hello world"))])),
    ];

    let ast = parse(expressions).unwrap();
    let sexpr = ast.render();

    assert_eq!(sexpr, r#"((add 5.3 4.7) (println "hello world"))"#)
}

#[test]
fn a_form_without_children_is_rejected() {
    assert_eq!(parse(vec![]), Err(ParseError::Structure));
}

#[test]
fn a_form_headed_by_a_literal_is_rejected() {
    assert_eq!(parse(vec![number_expr(5.0)]), Err(ParseError::Structure));
    assert_eq!(
        parse(vec![StringExpr(String::from("f")), FuncExpr(String::from("g"))]),
        Err(ParseError::Structure)
    );
    assert_eq!(parse(vec![BoolExpr(true)]), Err(ParseError::Structure));
    assert_eq!(parse(vec![ElemStartTerminator]), Err(ParseError::Structure));
}

#[test]
fn a_symbol_among_the_arguments_is_a_call_without_arguments() {
    let ast = parse(vec![
        FuncExpr(String::from("f")),
        FuncExpr(String::from("x")),
        BoolExpr(false),
    ]);
    assert_eq!(
        ast,
        Ok(SFunc(String::from("f"), vec![SFunc(String::from("x"), vec![]), SExpr::SBool(false)]))
    );
}

#[test]
fn a_lone_symbol_is_a_call_without_arguments() {
    assert_eq!(parse(vec![FuncExpr(String::from("f"))]), Ok(SFunc(String::from("f"), vec![])));
}

#[test]
fn a_list_keeps_its_head_as_first_element() {
    let ast = parse(vec![
        AstExpr(SList(vec![])),
        FuncExpr(String::from("x")),
        number_expr(1.0),
    ]);
    assert_eq!(
        ast,
        Ok(SList(vec![SList(vec![]), SFunc(String::from("x"), vec![]), number(1.0)]))
    );
}
