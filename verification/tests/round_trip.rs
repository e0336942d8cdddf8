use sexpr_reader::sexpr::decimal::Decimal;
use sexpr_reader::sexpr::expr::SExpr;
use sexpr_reader::sexpr::expr::SExpr::{SBool, SFunc, SList, SNumber, SString};
use sexpr_reader::sexpr::round_trip::is_self_delimiting;
use sexpr_reader::sexpr::sexpr_parser::{parse, Expr};

fn chars(text: &str) -> Vec<char> {
    text.chars().collect()
}

#[test]
fn text_without_quotes_is_self_delimiting_if_it_has_no_delimiter() {
    for text in ["", "a", "println", "+", "a.b", "a\\b", "\\", "tab\there"] {
        assert!(is_self_delimiting(&chars(text)), "{:?}", text);
    }
    for text in [" ", "a b", "a(", ")a", "a\nb", "(", ")"] {
        assert!(!is_self_delimiting(&chars(text)), "{:?}", text);
    }
}

#[test]
fn quotes_must_pair_up_and_guard_the_delimiters() {
    for text in ["\"\"", "\"a b\"", "\"(\"", "a\"b c\"d", "\"a\"b\"c\"", "\"a\\b\"", "\\\"a\""] {
        assert!(is_self_delimiting(&chars(text)), "{:?}", text);
    }
    for text in ["\"", "\"a", "\"\"\"", "\"a\" \"b\"", "\"a\"(\"b\"", "a\"b"] {
        assert!(!is_self_delimiting(&chars(text)), "{:?}", text);
    }
}

#[test]
fn a_quote_after_a_backslash_inside_quotes_is_not_self_delimiting() {
    for text in ["\"a\\\"", "\"\\\"\"", "\"a\\\"b\""] {
        assert!(!is_self_delimiting(&chars(text)), "{:?}", text);
    }
}

#[test]
fn a_tree_reads_back_exactly_when_its_rendering_is_read_as_the_tree() {
    let inputs = [
        "()",
        "(and true false)",
        "(add 5.0 04.50)",
        "(concat \"hello\" \" \" \"world\")",
        "((add 5.3 4.7) (println \"hello world\"))",
        "(f\n x (g) () \"(\")",
        "(f \"a\"b\"c\")",
        "(\"a\"b c)",
        "(concat \"hello\" \"\\\"\" \"world\")",
        "(f \"\\\" \")",
        "(f \"a\\\\\"\")",
        "(\"\\\"\"x y)",
        "(f \"\\\"\" \"\\\"\")",
        "(f \"\\\")\"x)",
    ];
    for input in inputs {
        let tree = parse(String::from(input)).unwrap();
        let again = parse(tree.render());
        assert_eq!(tree.reads_back(), again == Ok(tree), "{:?}", input);
    }
}

#[test]
fn reads_back_looks_at_every_name_and_string() {
    let good = SList(vec![
        SFunc(String::from("f"), vec![SString(String::from("a b")), SBool(true)]),
        SNumber(Decimal::from_text("1.5").unwrap()),
    ]);
    assert!(good.reads_back());
    let bad_name = SList(vec![SFunc(String::from("f g"), vec![])]);
    assert!(!bad_name.reads_back());
    let bad_string = SFunc(String::from("f"), vec![SList(vec![SString(String::from("\""))])]);
    assert!(!bad_string.reads_back());
    let backslash_last = SFunc(String::from("f"), vec![SString(String::from("a\\"))]);
    assert!(!backslash_last.reads_back());
}

#[test]
fn a_copy_is_equal_to_what_it_was_made_from() {
    let tree = parse(String::from("((add 5.3 4.7) (println \"hello world\") (f true ()))"))
        .unwrap();
    assert_eq!(tree.clone(), tree);
    let entry = Expr::AstExpr(tree);
    assert_eq!(entry.clone(), entry);
    assert_eq!(Expr::ElemStartTerminator.clone(), Expr::ElemStartTerminator);
}

#[test]
fn every_short_text_that_is_read_obeys_the_round_trip_law() {
    let alphabet = ['(', ')', ' ', '"', '\\', 'a'];
    let mut read = 0;
    let mut not_reading_back = 0;
    let mut texts: Vec<String> = vec![String::new()];
    for _ in 0..7 {
        let mut longer = Vec::new();
        for text in &texts {
            for c in alphabet {
                let mut next = text.clone();
                next.push(c);
                longer.push(next);
            }
        }
        for text in &longer {
            if let Ok(tree) = parse(text.clone()) {
                read += 1;
                let again = parse(tree.render());
                if !tree.reads_back() {
                    not_reading_back += 1;
                }
                let escaped = text.contains("\\\"");
                assert!(escaped || tree.reads_back(), "{:?}", text);
                assert_eq!(tree.reads_back(), again == Ok(tree), "{:?}", text);
            }
        }
        texts = longer;
    }
    assert!(read > 1000);
    assert!(not_reading_back > 0);
}
