use kaleidoscope::lexer::{Lexer, Token};
use kaleidoscope::parser::{ExpressionAST, FunctionAST, ParseResult, Parser, PrototypeAST};

fn parser(input: &str) -> Parser {
    let l = Lexer::new(input.chars().collect());
    let mut p = Parser::new(l);
    p.get_next_token();
    p
}

fn var(name: &str) -> ExpressionAST {
    ExpressionAST::Variable(name.into())
}

fn bin(op: char, l: ExpressionAST, r: ExpressionAST) -> ExpressionAST {
    ExpressionAST::Binary(op, Box::new(l), Box::new(r))
}

fn number_value(e: &ExpressionAST) -> Option<f64> {
    match e {
        ExpressionAST::Number(text) => text.parse().ok(),
        _ => None,
    }
}

fn ok_number(r: ParseResult<ExpressionAST>) -> Option<f64> {
    r.ok().as_ref().and_then(number_value)
}

#[test]
fn parse_number() {
    let mut p = parser("13.37");
    assert_eq!(ok_number(p.parse_number_expr()), Some(13.37f64));
}

#[test]
fn parse_variable() {
    let mut p = parser("foop");
    assert_eq!(p.parse_identifier_expr(), Ok(ExpressionAST::Variable("foop".into())))
}

#[test]
fn parse_primary() {
    let mut p = parser("1337 foop \n bla(123)");

    assert_eq!(ok_number(p.parse_primary()), Some(1337f64));
    assert_eq!(p.parse_identifier_expr(), Ok(ExpressionAST::Variable("foop".into())));
    match p.parse_primary() {
        Ok(ExpressionAST::Call(callee, args)) => {
            assert_eq!(callee, "bla");
            assert_eq!(args.len(), 1);
            assert_eq!(number_value(&args[0]), Some(123f64));
        }
        other => panic!("expected a call, got {:?}", other),
    }
}

#[test]
fn parse_binary_op() {
    let mut p = parser("a + b - c");
    let bin_expr_ab = bin('+', var("a"), var("b"));
    let bin_expr_abc = bin('-', bin_expr_ab, var("c"));
    assert_eq!(p.parse_expression(), Ok(bin_expr_abc));
}

#[test]
fn parse_binary_op2() {
    let mut p = parser("a + b * c");
    let bin_expr_bc = bin('*', var("b"), var("c"));
    let bin_expr_abc = bin('+', var("a"), bin_expr_bc);
    assert_eq!(p.parse_expression(), Ok(bin_expr_abc));
}

#[test]
fn parse_prototype() {
    let mut p = parser("foo(a,b)");
    let proto = PrototypeAST("foo".into(), vec!["a".into(), "b".into()]);
    assert_eq!(p.parse_prototype(), Ok(proto));
}

#[test]
fn parse_definition() {
    let mut p = parser("def bar( arg0, arg1) arg0 + arg1");
    let proto = PrototypeAST("bar".into(), vec!["arg0".into(), "arg1".into()]);
    let body = bin('+', var("arg0"), var("arg1"));
    let func = FunctionAST(proto, body);
    assert_eq!(p.parse_definition(), Ok(func));
}

#[test]
fn parse_extern() {
    let mut p = parser("extern bar()");
    let proto = PrototypeAST("bar".into(), vec![]);
    assert_eq!(p.parse_extern(), Ok(proto));
}

#[test]
fn call_without_arguments() {
    let mut p = parser("foo()");
    assert_eq!(p.parse_expression(), Ok(ExpressionAST::Call("foo".into(), vec![])));
    assert_eq!(*p.cur_token(), Token::Eof);
}

#[test]
fn call_with_several_arguments() {
    let mut p = parser("f(a, b + c, g(d)) ; x");
    let expected = ExpressionAST::Call(
        "f".into(),
        vec![var("a"), bin('+', var("b"), var("c")), ExpressionAST::Call("g".into(), vec![var("d")])],
    );
    assert_eq!(p.parse_expression(), Ok(expected));
    assert_eq!(*p.cur_token(), Token::Char(';'));
}

#[test]
fn bad_argument_list() {
    let mut p = parser("foo(a b)");
    assert_eq!(p.parse_expression(), Err("expected ')' or ',' in argument list".to_string()));
}

#[test]
fn missing_close_paren() {
    let mut p = parser("(1 + 2");
    assert_eq!(p.parse_expression(), Err("expected ')'".to_string()));
}

#[test]
fn parenthesized_expression() {
    let mut p = parser("(a + b) * c");
    assert_eq!(p.parse_expression(), Ok(bin('*', bin('+', var("a"), var("b")), var("c"))));
}

#[test]
fn unknown_token() {
    let mut p = parser("+ a");
    assert_eq!(
        p.parse_expression(),
        Err("unknown token when expecting an expression".to_string())
    );
}

#[test]
fn precedence_table() {
    let mut p = parser("a < b + c * d - e");
    let expected = bin('<', var("a"), bin('-', bin('+', var("b"), bin('*', var("c"), var("d"))), var("e")));
    assert_eq!(p.parse_expression(), Ok(expected));

    let mut p = parser("a * b + c");
    assert_eq!(p.parse_expression(), Ok(bin('+', bin('*', var("a"), var("b")), var("c"))));
}

#[test]
fn prototype_without_name_consumes_nothing() {
    let mut p = parser("(a)");
    assert_eq!(p.parse_prototype(), Err("expected function name in prototype".to_string()));
    assert_eq!(*p.cur_token(), Token::Char('('));

    let mut p = parser("extern 12(a)");
    assert_eq!(p.parse_extern(), Err("expected function name in prototype".to_string()));
    assert_eq!(p.cur_token().clone(), Token::Number("12".into()));
}

#[test]
fn prototype_without_paren() {
    let mut p = parser("foo a");
    assert_eq!(p.parse_prototype(), Err("expected function name in prototype".to_string()));
}

#[test]
fn prototype_without_close_paren() {
    let mut p = parser("foo(a; b)");
    assert_eq!(p.parse_prototype(), Err("expected ')' in prototype".to_string()));
    assert_eq!(*p.cur_token(), Token::Char(';'));
}

#[test]
fn prototype_commas_are_lax() {
    let mut p = parser("foo(,a,,b c,)");
    let proto = PrototypeAST("foo".into(), vec!["a".into(), "b".into(), "c".into()]);
    assert_eq!(p.parse_prototype(), Ok(proto));
}

#[test]
fn top_level_expression() {
    let mut p = parser("x * 2");
    match p.parse_top_level_expr() {
        Ok(FunctionAST(proto, ExpressionAST::Binary('*', l, r))) => {
            assert_eq!(proto, PrototypeAST(String::new(), vec![]));
            assert_eq!(*l, var("x"));
            assert_eq!(number_value(&r), Some(2.0));
        }
        other => panic!("unexpected {:?}", other),
    }
}

#[test]
fn unknown_token_consumes_nothing() {
    let mut p = parser(") a");
    assert_eq!(p.parse_primary(), Err("unknown token when expecting an expression".to_string()));
    assert_eq!(*p.cur_token(), Token::Char(')'));
}

#[test]
fn long_operator_chain_keeps_order() {
    let mut p = parser("a - b - c * d * e + f");
    let expected = bin(
        '+',
        bin('-', bin('-', var("a"), var("b")), bin('*', bin('*', var("c"), var("d")), var("e"))),
        var("f"),
    );
    assert_eq!(p.parse_expression(), Ok(expected));
}
