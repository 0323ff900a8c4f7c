use cidr_calc::{parse, parse_single, Atomic, Expr, ParseError, Stmt, V4, V6};

#[test]
fn test_parser() {
    let parsed = parse_single("0.0.0.0/0");
    assert!(parsed.is_ok());
    assert_eq!(parsed.unwrap(), Stmt::Expr(Expr::Atomic(Atomic::V4(V4(0, 0)))));

    let parsed = parse_single("101.6.6.6/32");
    assert!(parsed.is_ok());
    assert_eq!(
        parsed.unwrap(),
        Stmt::Expr(Expr::Atomic(Atomic::V4(V4(1694893574u32, 32))))
    );

    let parsed = parse_single("::/0");
    assert!(parsed.is_ok());
    assert_eq!(parsed.unwrap(), Stmt::Expr(Expr::Atomic(Atomic::V6(V6(0, 0)))));

    let parsed = parse_single("::1/128");
    assert!(parsed.is_ok());
    assert_eq!(parsed.unwrap(), Stmt::Expr(Expr::Atomic(Atomic::V6(V6(1, 128)))));

    let parsed = parse_single("2001:da8::666/24");
    assert!(parsed.is_ok());
    assert_eq!(
        parsed.unwrap(),
        Stmt::Expr(Expr::Atomic(Atomic::V6(V6(
            42540765143631992628674583454950622822u128,
            24
        ))))
    );

    let example = r#"
    let meow = ::/0
    let meow_meow = 2001:da8::666/128
    meow + meow_meow - meow
    "#;
    let parsed = parse(example);
    // assert!(parsed.is_ok());
    println!("{:?}", parsed)
}

#[test]
fn parse_let_binding_structure() {
    let parsed = parse_single("let a = 10.0.0.0/8").unwrap();
    assert_eq!(
        parsed,
        Stmt::LetIn {
            ident: String::from("a"),
            val: Box::new(Expr::Atomic(Atomic::V4(V4(0x0A000000, 8)))),
        }
    );
}

#[test]
fn parse_left_associative_chain() {
    let parsed = parse_single("a - b + c").unwrap();
    let a = Box::new(Expr::Atomic(Atomic::Ident(String::from("a"))));
    let b = Box::new(Expr::Atomic(Atomic::Ident(String::from("b"))));
    let c = Box::new(Expr::Atomic(Atomic::Ident(String::from("c"))));
    assert_eq!(
        parsed,
        Stmt::Expr(Expr::Addition(Box::new(Expr::Subtraction(a, b)), c))
    );
}

#[test]
fn parse_parenthesized_expression() {
    let parsed = parse_single("a - (b + c)").unwrap();
    let a = Box::new(Expr::Atomic(Atomic::Ident(String::from("a"))));
    let b = Box::new(Expr::Atomic(Atomic::Ident(String::from("b"))));
    let c = Box::new(Expr::Atomic(Atomic::Ident(String::from("c"))));
    assert_eq!(
        parsed,
        Stmt::Expr(Expr::Subtraction(a, Box::new(Expr::Addition(b, c))))
    );
}

#[test]
fn parse_v4_octet_out_of_range() {
    assert_eq!(parse_single("1.2.3.256/8"), Err(ParseError::V4Octet));
    assert_eq!(parse_single("1.2.3.1000/8"), Err(ParseError::V4Octet));
}

#[test]
fn parse_v4_length_out_of_range() {
    assert_eq!(parse_single("1.2.3.4/33"), Err(ParseError::V4Len));
    assert_eq!(parse_single("1.2.3.4/999"), Err(ParseError::V4Len));
}

#[test]
fn parse_v6_double_colon_twice() {
    assert_eq!(parse_single("1::2::3/12"), Err(ParseError::V6DoubleColon));
}

#[test]
fn parse_v6_group_count_errors() {
    assert_eq!(
        parse_single("1:2:3:4:5:6:7:8:9/1"),
        Err(ParseError::V6Groups)
    );
    assert_eq!(parse_single("1:2:3/4"), Err(ParseError::V6Groups));
}

#[test]
fn parse_v6_length_out_of_range() {
    assert_eq!(parse_single("::/129"), Err(ParseError::V6Len));
}

#[test]
fn parse_syntax_errors() {
    assert!(parse_single("").is_err());
    assert!(parse_single("foo bar").is_err());
    assert!(parse_single("1.2.3/8").is_err());
    assert!(parse_single("+ 1.2.3.4/8").is_err());
}

#[test]
fn parse_multiple_statements() {
    let script = "let a = 1.0.0.0/8\n\n  \na\n";
    let stmts = parse(script).unwrap();
    assert_eq!(stmts.len(), 2);
    assert_eq!(
        stmts[1],
        Stmt::Expr(Expr::Atomic(Atomic::Ident(String::from("a"))))
    );
}
