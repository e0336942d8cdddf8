use sexpr_reader::sexpr::decimal::Decimal;
use sexpr_reader::sexpr::error::ParseError;
use sexpr_reader::sexpr::expr::SExpr;
use sexpr_reader::sexpr::expr::SExpr::{SBool, SFunc, SList, SNumber, SString};
use sexpr_reader::sexpr::sexpr_parser::{
    is_end_terminator, is_list_end_terminator, is_list_start_terminator, is_start_terminator, parse,
};

fn number(value: f64) -> SExpr {
    SNumber(Decimal::from_text(&format!("{}", value)).unwrap())
}

fn call(name: &str, args: Vec<SExpr>) -> SExpr {
    SFunc(String::from(name), args)
}

fn text(s: &str) -> SExpr {
    SString(String::from(s))
}

#[test]
fn test_empty_list() {
    let sexpr = String::from("()");
    let expected_expr = SList(vec![]).render();
    let fact_expr = parse(sexpr).unwrap().render();

    assert_eq!(fact_expr, expected_expr)
}

#[test]
fn test_boolean_func() {
    let sexpr = String::from(r#"(and true false)"#);

    let expected_expr = SFunc(String::from("and"), vec![SBool(true), SBool(false)]).render();

    let fact_expr = parse(sexpr).unwrap().render();
    assert_eq!(fact_expr, expected_expr)
}

#[test]
fn test_numeric_func_with_ints() {
    let sexpr = String::from(r#"(add 5 4)"#);

    let expected_expr = SFunc(String::from("add"), vec![number(5.0), number(4.0)]).render();

    let fact_expr = parse(sexpr).unwrap().render();
    assert_eq!(fact_expr, expected_expr)
}

#[test]
fn test_numeric_func_with_floats() {
    let sexpr = String::from(r#"(add 5.5 4.5)"#);

    let expected_expr = SFunc(String::from("add"), vec![number(5.5), number(4.5)]).render();

    let fact_expr = parse(sexpr).unwrap().render();
    assert_eq!(fact_expr, expected_expr)
}

#[test]
fn test_string_func() {
    let sexpr = String::from(r#"(concat "hello" "_" "world")"#);

    let expected_expr = SFunc(
        String::from("concat"),
        vec![
            SString(String::from("hello")),
            SString(String::from("_")),
            SString(String::from("world")),
        ],
    )
    .render();

    let fact_expr = parse(sexpr).unwrap().render();
    assert_eq!(fact_expr, expected_expr)
}

#[test]
fn test_func_with_whitespace_arg() {
    let sexpr = String::from(r#"(concat "hello" " " "world")"#);

    let expected_expr = SFunc(
        String::from("concat"),
        vec![
            SString(String::from("hello")),
            SString(String::from(" ")),
            SString(String::from("world")),
        ],
    )
    .render();

    let fact_expr = parse(sexpr).unwrap().render();
    assert_eq!(fact_expr, expected_expr)
}

#[test]
fn test_func_with_escaped_quote_arg() {
    let sexpr = String::from(r#"(concat "hello" "\"" "world")"#);

    let expected_expr = SFunc(
        String::from("concat"),
        vec![
            SString(String::from("hello")),
            SString(String::from("\"")),
            SString(String::from("world")),
        ],
    )
    .render();

    let fact_expr = parse(sexpr).unwrap().render();
    assert_eq!(fact_expr, expected_expr)
}

#[test]
fn reads_a_program_of_nested_forms() {
    let sexpr = String::from(
        r#"(
            (if (> 7 3)
                (concat "hello" " " "world")
                (add 5 3)
            )

            (div 6.3 2.7)
        )"#,
    );

    let expected = SList(vec![
        call(
            "if",
            vec![
                call(">", vec![number(7.0), number(3.0)]),
                call("concat", vec![text("hello"), text(" "), text("world")]),
                call("add", vec![number(5.0), number(3.0)]),
            ],
        ),
        call("div", vec![number(6.3), number(2.7)]),
    ]);

    assert_eq!(parse(sexpr), Ok(expected))
}

#[test]
fn reads_the_empty_list() {
    assert_eq!(parse(String::from("()")), Ok(SList(vec![])));
    assert_eq!(parse(String::from("(f ())")), Ok(call("f", vec![SList(vec![])])));
    assert_eq!(parse(String::from("(() x)")), Ok(SList(vec![SList(vec![]), call("x", vec![])])));
}

#[test]
fn reads_a_call_of_booleans() {
    assert_eq!(
        parse(String::from("(and true false)")),
        Ok(call("and", vec![SBool(true), SBool(false)]))
    );
}

#[test]
fn reads_numbers_by_value() {
    assert_eq!(parse(String::from("(add 5 4)")), Ok(call("add", vec![number(5.0), number(4.0)])));
    assert_eq!(
        parse(String::from("(add 5.5 4.5)")),
        Ok(call("add", vec![number(5.5), number(4.5)]))
    );
    assert_eq!(parse(String::from("(add 5.0 04.50)")).unwrap().render(), "(add 5 4.5)");
}

#[test]
fn reads_string_literals() {
    assert_eq!(
        parse(String::from(r#"(concat "hello" " " "world")"#)),
        Ok(call("concat", vec![text("hello"), text(" "), text("world")]))
    );
    assert_eq!(
        parse(String::from("(say \"(a b)\nc\")")),
        Ok(call("say", vec![text("(a b)\nc")]))
    );
}

#[test]
fn an_escaped_quote_is_one_quote() {
    let tree = parse(String::from(r#"(concat "hello" "\"" "world")"#)).unwrap();
    assert_eq!(tree, call("concat", vec![text("hello"), text("\""), text("world")]));
    match tree {
        SFunc(_, args) => assert_eq!(args[1], SString(String::from("\""))),
        _ => panic!("not a call"),
    }
}

#[test]
fn a_backslash_that_precedes_no_quote_is_kept() {
    assert_eq!(parse(String::from(r#"(p "a\b")"#)), Ok(call("p", vec![text(r"a\b")])));
    assert_eq!(parse(String::from(r#"(p "a\\"b")"#)), Ok(call("p", vec![text("a\\\"b")])));
    assert_eq!(parse(String::from(r#"(p a\b)"#)), Ok(call("p", vec![call(r"a\b", vec![])])));
}

#[test]
fn reads_a_list_of_forms() {
    assert_eq!(
        parse(String::from("((add 5.3 4.7) (println \"hello world\"))")),
        Ok(SList(vec![
            call("add", vec![number(5.3), number(4.7)]),
            call("println", vec![text("hello world")]),
        ]))
    );
}

#[test]
fn a_bare_symbol_in_a_form_is_a_call_without_arguments() {
    assert_eq!(parse(String::from("(println)")), Ok(call("println", vec![])));
    assert_eq!(parse(String::from("(f x)")), Ok(call("f", vec![call("x", vec![])])));
}

#[test]
fn line_breaks_and_spaces_separate_tokens() {
    assert_eq!(
        parse(String::from("(f\n  1   2\n)")),
        Ok(call("f", vec![number(1.0), number(2.0)]))
    );
}

#[test]
fn a_missing_closing_parenthesis_is_malformed() {
    assert_eq!(parse(String::from("(add 5 4")), Err(ParseError::MalformedStructure));
    assert_eq!(parse(String::from("(")), Err(ParseError::MalformedStructure));
    assert_eq!(parse(String::from("((a)")), Err(ParseError::MalformedStructure));
}

#[test]
fn what_is_left_beside_the_form_is_malformed() {
    assert_eq!(parse(String::from("(a) (b)")), Err(ParseError::MalformedStructure));
    assert_eq!(parse(String::from("(a) b ")), Err(ParseError::MalformedStructure));
    assert_eq!(parse(String::from("a ")), Err(ParseError::MalformedStructure));
}

#[test]
fn the_empty_text_is_empty_input() {
    assert_eq!(parse(String::from("")), Err(ParseError::EmptyInput));
    assert_eq!(parse(String::from("  \n ")), Err(ParseError::EmptyInput));
    assert_eq!(parse(String::from("abc")), Err(ParseError::EmptyInput));
}

#[test]
fn a_form_headed_by_a_literal_is_a_structure_error() {
    assert_eq!(parse(String::from("(5)")), Err(ParseError::Structure));
    assert_eq!(parse(String::from("(\"f\" 1)")), Err(ParseError::Structure));
    assert_eq!(parse(String::from("(true)")), Err(ParseError::Structure));
    assert_eq!(parse(String::from("(f (5)) (g")), Err(ParseError::Structure));
}

#[test]
fn reading_the_rendering_gives_the_tree_again() {
    let inputs = [
        "()",
        "(and true false)",
        "(add 5.0 04.50)",
        "(concat \"hello\" \" \" \"world\")",
        "((add 5.3 4.7) (println \"hello world\"))",
        "(f\n x (g) () \"(\")",
        "(f \"a\"b\"c\")",
    ];
    for input in inputs {
        let tree = parse(String::from(input)).unwrap();
        assert_eq!(parse(tree.render()), Ok(tree));
    }
}

#[test]
fn a_tree_with_an_escaped_quote_does_not_read_back() {
    let tree = parse(String::from(r#"(concat "hello" "\"" "world")"#)).unwrap();
    assert_eq!(tree.render(), r#"(concat "hello" """ "world")"#);
    assert_ne!(parse(tree.render()), Ok(tree));
}

#[test]
fn terminators_are_told_apart() {
    for c in [' ', ')', '\n'] {
        assert!(is_end_terminator(c));
    }
    for c in ['(', 'a', '"', '\t'] {
        assert!(!is_end_terminator(c));
    }
    for c in [' ', '(', '\n'] {
        assert!(is_start_terminator(c));
    }
    for c in [')', 'a', '"', '\t'] {
        assert!(!is_start_terminator(c));
    }
    assert!(is_list_end_terminator(')'));
    assert!(!is_list_end_terminator('('));
    assert!(is_list_start_terminator('('));
    assert!(!is_list_start_terminator(')'));
}
