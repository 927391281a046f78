use pdf_template_core::expression::{Expr, ExpressionParser};

fn ident(s: &str) -> Expr {
    Expr::Ident(s.to_string())
}

fn member(t: Expr, p: &str) -> Expr {
    Expr::Member(Box::new(t), p.to_string())
}

fn err_message(input: &str) -> (String, String) {
    let e = ExpressionParser::parse_expression(input).unwrap_err();
    (e.expression, e.message)
}

#[test]
fn parses_nested_member_access() {
    let e = ExpressionParser::parse_expression("customer.address.city").unwrap();
    assert_eq!(e, member(member(ident("customer"), "address"), "city"));
}

#[test]
fn parses_array_index_then_member() {
    let e = ExpressionParser::parse_expression("items[0].price").unwrap();
    assert_eq!(e, member(Expr::Index(Box::new(ident("items")), 0), "price"));
}

#[test]
fn whitespace_around_expression_is_ignored() {
    let a = ExpressionParser::parse_expression("  customer.name  ").unwrap();
    let b = ExpressionParser::parse_expression("customer.name").unwrap();
    assert_eq!(a, b);
    let c = ExpressionParser::parse_expression("\u{00A0}items [ 0 ] . name\t").unwrap();
    assert_eq!(c, member(Expr::Index(Box::new(ident("items")), 0), "name"));
}

#[test]
fn parses_helper_calls() {
    let e = ExpressionParser::parse_expression("currency(invoice.total)").unwrap();
    assert_eq!(e, Expr::Call("currency".to_string(), vec![member(ident("invoice"), "total")]));
    let e = ExpressionParser::parse_expression("join( a , 'x', 2 )").unwrap();
    assert_eq!(
        e,
        Expr::Call(
            "join".to_string(),
            vec![ident("a"), Expr::StringLit("x".to_string()), Expr::NumberLit("2".to_string())],
        )
    );
    let e = ExpressionParser::parse_expression("now()").unwrap();
    assert_eq!(e, Expr::Call("now".to_string(), vec![]));
}

#[test]
fn parses_literals() {
    assert_eq!(
        ExpressionParser::parse_expression("\"héllo world\"").unwrap(),
        Expr::StringLit("héllo world".to_string())
    );
    assert_eq!(ExpressionParser::parse_expression("12.50").unwrap(), Expr::NumberLit("12.50".to_string()));
    assert_eq!(ExpressionParser::parse_expression("7.").unwrap(), Expr::NumberLit("7.".to_string()));
    assert_eq!(ExpressionParser::parse_expression("$total_2").unwrap(), ident("$total_2"));
}

#[test]
fn reports_each_kind_of_malformed_expression() {
    assert_eq!(err_message("   "), ("   ".to_string(), "Empty expression".to_string()));
    assert_eq!(err_message("a."), ("a.".to_string(), "Expected identifier".to_string()));
    assert_eq!(err_message("a[x]"), ("a[x]".to_string(), "Expected array index integer".to_string()));
    assert_eq!(err_message("a[1"), ("a[1".to_string(), "Expected ']' after array index".to_string()));
    assert_eq!(err_message("f(a"), ("f(a".to_string(), "Expected ')' after function arguments".to_string()));
    assert_eq!(err_message("'abc"), ("'abc".to_string(), "Unterminated string literal".to_string()));
    assert_eq!(err_message("#x"), ("#x".to_string(), "Unexpected character '#'".to_string()));
    assert_eq!(err_message(" f( "), ("f(".to_string(), "Unexpected end of input".to_string()));
    assert_eq!(
        err_message(" a b "),
        (" a b ".to_string(), "Unexpected characters after expression at index 2".to_string())
    );
    assert_eq!(
        err_message("é b"),
        ("é b".to_string(), "Expected identifier".to_string())
    );
    assert_eq!(
        err_message("a[99999999999999999999999]"),
        ("a[99999999999999999999999]".to_string(), "Invalid array index: 99999999999999999999999".to_string())
    );
}

#[test]
fn error_index_counts_bytes() {
    assert_eq!(
        err_message("'é' x"),
        ("'é' x".to_string(), "Unexpected characters after expression at index 5".to_string())
    );
}

#[test]
fn describes_errors_like_their_display() {
    let e = ExpressionParser::parse_expression("a.").unwrap_err();
    assert_eq!(e.describe(), "InvalidExpressionError in \"a.\": Expected identifier");
}

#[test]
fn new_parser_starts_at_beginning() {
    let _p = ExpressionParser::new("x.y");
}
