use database::query::ast::{Parser, Expr, BOp, UOp, Literal, ColumnRef, TableRef, SelectStmt, Statement, make_ast};
use database::query::lexer::{Token, lexerize, lexable, scan_string_literal, scan_int_literal, scan_ident_or_keyword};

fn col(name: &str) -> Expr {
    Expr::ColumnRef(ColumnRef::Column { table: None, column: name.to_string() })
}

fn str_(s: &str) -> Expr {
    Expr::Literal(Literal::Str(s.to_string()))
}

fn int_lit(n: i64) -> Expr {
    Expr::Literal(Literal::Int(n))
}

fn bin(left: Expr, op: BOp, right: Expr) -> Expr {
    Expr::BinaryExpr { left: Box::new(left), operator: op, right: Box::new(right) }
}

fn not_(e: Expr) -> Expr {
    Expr::UnaryExpr { operator: UOp::Not, expr: Box::new(e) }
}

#[test]
fn basic_expr() {
    let tokens = vec![
        Token::Ident("name".to_string()),
        Token::NotEq,
        Token::StringLiteral("Falco".to_string()),
        Token::Eof,
    ];
    let mut parser = Parser::new(&tokens);
    let expected = bin(col("name"), BOp::NotEq, str_("Falco"));
    assert_eq!(parser.parse_expr().unwrap(), expected);
}

#[test]
fn and_vs_or_binding() {
    let tokens = vec![
        Token::Ident("age".to_string()), Token::Eq, Token::IntLiteral(1),
        Token::Or,
        Token::Ident("age".to_string()), Token::Eq, Token::IntLiteral(2),
        Token::And,
        Token::Ident("age".to_string()), Token::Eq, Token::IntLiteral(3),
        Token::Eof,
    ];
    let mut parser = Parser::new(&tokens);
    let expected = bin(
        bin(col("age"), BOp::Eq, int_lit(1)),
        BOp::Or,
        bin(bin(col("age"), BOp::Eq, int_lit(2)), BOp::And, bin(col("age"), BOp::Eq, int_lit(3))),
    );
    assert_eq!(parser.parse_expr().unwrap(), expected);
}

#[test]
fn not_vs_and_binding() {
    let tokens = vec![
        Token::Not,
        Token::Ident("cost".to_string()), Token::Eq, Token::IntLiteral(5),
        Token::And,
        Token::Ident("cost".to_string()), Token::Gt, Token::IntLiteral(2),
        Token::Eof,
    ];
    let mut parser = Parser::new(&tokens);
    let expected = bin(
        not_(bin(col("cost"), BOp::Eq, int_lit(5))),
        BOp::And,
        bin(col("cost"), BOp::Gt, int_lit(2)),
    );
    assert_eq!(parser.parse_expr().unwrap(), expected);
}

#[test]
fn basic_select() {
    let tokens = vec![
        Token::Select, Token::Star,
        Token::From, Token::Ident("table".into()),
        Token::Eof,
    ];
    let mut parser = Parser::new(&tokens);
    let expected = SelectStmt {
        table: TableRef::Table("table".to_string()),
        columns: vec![ColumnRef::AllColumns],
        where_clause: None,
    };
    assert_eq!(parser.parse_select().unwrap(), expected);
}

#[test]
fn where_select() {
    let tokens = vec![
        Token::Select, Token::Ident("col2".into()), Token::Comma, Token::Ident("col1".into()),
        Token::From, Token::Ident("table".to_string()),
        Token::Where, Token::LParen,
        Token::Ident("status".into()), Token::Eq, Token::StringLiteral("active".into()),
        Token::Or,
        Token::Ident("status".into()), Token::NotEq, Token::StringLiteral("banned".into()),
        Token::RParen,
        Token::Eof,
    ];
    let mut parser = Parser::new(&tokens);
    let expected = SelectStmt {
        table: TableRef::Table("table".to_string()),
        columns: vec![
            ColumnRef::Column { table: None, column: "col2".into() },
            ColumnRef::Column { table: None, column: "col1".into() },
        ],
        where_clause: Some(bin(
            bin(col("status"), BOp::Eq, str_("active")),
            BOp::Or,
            bin(col("status"), BOp::NotEq, str_("banned")),
        )),
    };
    assert_eq!(parser.parse_select().unwrap(), expected);
}

#[test]
fn dotted_select() {
    let tokens = vec![
        Token::Select, Token::Ident("users".into()), Token::Dot, Token::Ident("names".into()),
        Token::As, Token::Ident("u".into()),
        Token::From, Token::Ident("table".into()),
        Token::Eof,
    ];
    let mut parser = Parser::new(&tokens);
    let expected = SelectStmt {
        table: TableRef::Table("table".to_string()),
        columns: vec![
            ColumnRef::Alias {
                alias: "u".into(),
                column: Box::new(ColumnRef::Column {
                    table: Some(TableRef::Table("users".into())),
                    column: "names".into(),
                }),
            },
        ],
        where_clause: None,
    };
    assert_eq!(parser.parse_select().unwrap(), expected);
}

#[test]
fn lex_string_literal() {
    let query = "'this is \\\'a\\\' string'";
    let mut pointer = 0;
    let token = Token::StringLiteral("this is \'a\' string".to_string());
    assert_eq!(token, scan_string_literal(&mut pointer, query.as_bytes()).unwrap());
}

#[test]
fn lex_int_literal() {
    let query = "12345";
    let mut pointer = 0;
    let token = Token::IntLiteral(12345);
    assert_eq!(token, scan_int_literal(&mut pointer, query.as_bytes()).unwrap());
}

#[test]
fn lex_ident_or_keyword() {
    let query = "SELECT";
    let mut pointer = 0;
    let token = Token::Select;
    assert_eq!(token, scan_ident_or_keyword(&mut pointer, query.as_bytes()).unwrap());
    let query = "FROM";
    let mut pointer = 0;
    let token = Token::From;
    assert_eq!(token, scan_ident_or_keyword(&mut pointer, query.as_bytes()).unwrap());
    let query = "some_ident";
    let mut pointer = 0;
    let token = Token::Ident("some_ident".to_string());
    assert_eq!(token, scan_ident_or_keyword(&mut pointer, query.as_bytes()).unwrap());
}

#[test]
fn lex_query() {
    let query = "SELECT * FROM yo WHERE val >= 35 AND other = 'string';";
    let tokens: Vec<Token> = vec![
        Token::Select,
        Token::Star,
        Token::From,
        Token::Ident("yo".to_string()),
        Token::Where,
        Token::Ident("val".to_string()),
        Token::GtEq,
        Token::IntLiteral(35),
        Token::And,
        Token::Ident("other".to_string()),
        Token::Eq,
        Token::StringLiteral("string".to_string()),
        Token::Semicolon,
        Token::Eof,
    ];
    assert_eq!(tokens, lexerize(query.as_bytes()).unwrap())
}

#[test]
fn lexed_query_parses_to_a_statement() {
    let tokens = lexerize("SELECT a FROM t WHERE a = 1;".as_bytes()).unwrap();
    let stmt = make_ast(tokens).unwrap();
    let expected = Statement::Select(SelectStmt {
        table: TableRef::Table("t".to_string()),
        columns: vec![ColumnRef::Column { table: None, column: "a".to_string() }],
        where_clause: Some(bin(col("a"), BOp::Eq, int_lit(1))),
    });
    assert_eq!(stmt, expected);
}

#[test]
fn scanners_move_the_cursor_past_the_token() {
    let mut pointer = 0;
    scan_int_literal(&mut pointer, "678 x".as_bytes()).unwrap();
    assert_eq!(pointer, 3);
    let mut pointer = 0;
    scan_string_literal(&mut pointer, "'ab' c".as_bytes()).unwrap();
    assert_eq!(pointer, 4);
}

#[test]
fn unclosed_string_literal_is_an_error() {
    let mut pointer = 0;
    assert!(scan_string_literal(&mut pointer, "'open".as_bytes()).is_err());
}

#[test]
fn oversized_int_literal_is_an_error() {
    let mut pointer = 0;
    assert!(scan_int_literal(&mut pointer, "99999999999999999999".as_bytes()).is_err());
}

#[test]
fn lexable_refuses_only_a_trailing_backslash() {
    assert!(lexable(b"SELECT 'a' FROM t"));
    assert!(lexable(b""));
    assert!(!lexable(b"SELECT 'a\\"));
    assert!(lexerize(b"SELECT 'a\\b'").is_ok());
}

#[test]
fn lexerize_ends_with_its_only_eof() {
    let tokens = lexerize(b"SELECT a, b FROM t WHERE a = 'x';").unwrap();
    assert_eq!(tokens.last(), Some(&Token::Eof));
    assert_eq!(tokens.iter().filter(|t| **t == Token::Eof).count(), 1);
}
