use langfront::ast::{Binary, Node};
use langfront::operators::{binary_operators, BinaryOperator};
use langfront::parser::{Parser, TokenIterator};
use langfront::token::Token;
use langfront::tokenizer::{LexError, Tokenizer, TokenizerIterator};

fn lex(src: &str) -> Vec<Token> {
    Tokenizer::tokenize(src.to_string()).expect("lexing should succeed")
}

fn parse_src(src: &str) -> Node {
    Parser::parse(lex(src)).expect("parsing should succeed")
}

#[test]
fn int_literal_and_semicolon() {
    let tokens = lex("1;");
    assert_eq!(tokens, vec![Token::IntLiteral("1".to_string()), Token::Semi]);
    let tokens = lex("007;");
    assert_eq!(tokens, vec![Token::IntLiteral("007".to_string()), Token::Semi]);
    let tokens = lex("1234567890;");
    assert_eq!(
        tokens,
        vec![Token::IntLiteral("1234567890".to_string()), Token::Semi]
    );
}

#[test]
fn keywords_are_never_identifiers() {
    for kw in ["return", "if", "else", "true", "false"] {
        let tokens = lex(kw);
        assert_eq!(tokens, vec![Token::Keyword(kw.to_string())]);
        assert_ne!(tokens, vec![Token::Identifier(kw.to_string())]);
    }
    assert_eq!(lex("returns"), vec![Token::Identifier("returns".to_string())]);
}

#[test]
fn whitespace_between_tokens_is_insignificant() {
    let reference = lex("return 1;");
    assert_eq!(lex("return  1;"), reference);
    assert_eq!(lex("return \t\n 1 \r ;"), reference);
    assert_eq!(lex("  return 1;  "), reference);
    let reference = lex("1 + 2;");
    assert_eq!(lex("1+2;"), reference);
    assert_eq!(lex("  1   +   2  ;"), reference);
}

#[test]
fn string_literals() {
    assert_eq!(
        lex("\"hello world\";"),
        vec![Token::StrLiteral("hello world".to_string()), Token::Semi]
    );
    assert_eq!(lex("\"\""), vec![Token::StrLiteral(String::new())]);
}

#[test]
fn unterminated_string_is_an_error() {
    assert_eq!(
        Tokenizer::tokenize("\"abc".to_string()),
        Err(LexError { offset: 0, character: '"' })
    );
    assert_eq!(
        Tokenizer::tokenize("x; \"abc".to_string()),
        Err(LexError { offset: 3, character: '"' })
    );
}

#[test]
fn unknown_character_is_an_error() {
    assert_eq!(
        Tokenizer::tokenize("#".to_string()),
        Err(LexError { offset: 0, character: '#' })
    );
    assert_eq!(
        Tokenizer::tokenize("1 + @;".to_string()),
        Err(LexError { offset: 4, character: '@' })
    );
}

#[test]
fn operator_lexing_is_longest_first() {
    let tokens = lex("a <= b;");
    assert_eq!(tokens.len(), 4);
    match &tokens[1] {
        Token::Binary(op) => {
            assert_eq!(op.op, "<=");
            assert_eq!(op.bin, Binary::LessThanOrEqual);
        }
        other => panic!("expected an operator token, found {:?}", other),
    }
    let tokens = lex("a < b;");
    match &tokens[1] {
        Token::Binary(op) => {
            assert_eq!(op.op, "<");
            assert_eq!(op.bin, Binary::LessThan);
        }
        other => panic!("expected an operator token, found {:?}", other),
    }
}

#[test]
fn operator_table_is_longest_lexeme_first() {
    let ops = binary_operators();
    assert_eq!(ops.len(), 13);
    for k in 1..ops.len() {
        assert!(ops[k - 1].op.len() >= ops[k].op.len());
    }
    assert_eq!(
        ops[8],
        BinaryOperator { op: "+".to_string(), precedence: 10, bin: Binary::Add }
    );
    let mul = ops.iter().find(|o| o.op == "*").unwrap();
    let add = ops.iter().find(|o| o.op == "+").unwrap();
    assert!(mul.precedence > add.precedence);
}

#[test]
fn parse_return_statement() {
    let ast = parse_src("return 1;");
    assert_eq!(
        ast,
        Node::Block(vec![Node::Return { value: Box::new(Node::IntegerLiteral(1)) }])
    );
}

#[test]
fn parse_if_else() {
    let ast = parse_src("if true { return 1; } else { return 2; }");
    assert_eq!(
        ast,
        Node::Block(vec![Node::If {
            condition: Box::new(Node::BooleanLiteral(true)),
            then_branch: Box::new(Node::Block(vec![Node::Return {
                value: Box::new(Node::IntegerLiteral(1)),
            }])),
            else_branch: Some(Box::new(Node::Block(vec![Node::Return {
                value: Box::new(Node::IntegerLiteral(2)),
            }]))),
        }])
    );
}

#[test]
fn parse_precedence() {
    let ast = parse_src("1 + 2 * 3;");
    assert_eq!(
        ast,
        Node::Block(vec![Node::BinaryExpr {
            op: Binary::Add,
            left: Box::new(Node::IntegerLiteral(1)),
            right: Box::new(Node::BinaryExpr {
                op: Binary::Multiply,
                left: Box::new(Node::IntegerLiteral(2)),
                right: Box::new(Node::IntegerLiteral(3)),
            }),
        }])
    );
}

#[test]
fn parse_parenthesized_expression() {
    let ast = parse_src("(1 + 2) * 3;");
    assert_eq!(
        ast,
        Node::Block(vec![Node::BinaryExpr {
            op: Binary::Multiply,
            left: Box::new(Node::BinaryExpr {
                op: Binary::Add,
                left: Box::new(Node::IntegerLiteral(1)),
                right: Box::new(Node::IntegerLiteral(2)),
            }),
            right: Box::new(Node::IntegerLiteral(3)),
        }])
    );
}

#[test]
fn equal_precedence_associates_left() {
    let ast = parse_src("1 - 2 - 3;");
    assert_eq!(
        ast,
        Node::Block(vec![Node::BinaryExpr {
            op: Binary::Subtract,
            left: Box::new(Node::BinaryExpr {
                op: Binary::Subtract,
                left: Box::new(Node::IntegerLiteral(1)),
                right: Box::new(Node::IntegerLiteral(2)),
            }),
            right: Box::new(Node::IntegerLiteral(3)),
        }])
    );
}

#[test]
fn malformed_if_is_an_error_not_a_panic() {
    let tokens = lex("if true");
    let result = Parser::parse(tokens);
    assert!(result.is_err());
    let err = result.unwrap_err();
    assert_eq!(err.position, 2);
    assert_eq!(err.found, None);
}

#[test]
fn parse_call_with_arguments() {
    let ast = parse_src("foo(1, \"a\");");
    assert_eq!(
        ast,
        Node::Block(vec![Node::Call {
            name: "foo".to_string(),
            args: vec![
                Node::IntegerLiteral(1),
                Node::StringLiteral("a".to_string()),
            ],
        }])
    );
}

#[test]
fn parse_call_without_arguments_and_variables() {
    let ast = parse_src("foo(); x;");
    assert_eq!(
        ast,
        Node::Block(vec![
            Node::Call { name: "foo".to_string(), args: vec![] },
            Node::Variable("x".to_string()),
        ])
    );
}

#[test]
fn integer_literal_out_of_range_is_an_error() {
    let result = Parser::parse(lex("99999999999;"));
    assert!(result.is_err());
    assert_eq!(result.unwrap_err().position, 0);
    assert_eq!(parse_src("2147483647;"), Node::Block(vec![Node::IntegerLiteral(2147483647)]));
    assert!(Parser::parse(lex("2147483648;")).is_err());
}

#[test]
fn missing_semicolon_is_an_error() {
    let result = Parser::parse(lex("return 1"));
    assert!(result.is_err());
    assert_eq!(result.unwrap_err().position, 2);
}

#[test]
fn else_must_open_a_block() {
    let result = Parser::parse(lex("if true { } else if false { }"));
    assert!(result.is_err());
}

#[test]
fn tokenizer_iterator_primitives() {
    let mut it = TokenizerIterator { i: 0, s: 0, len: 3, content: vec!['a', 'b', 'c'] };
    assert!(!it.end());
    assert_eq!(it.curr(), Some('a'));
    assert_eq!(it.next(), Some('b'));
    assert_eq!(it.peek(), Some('c'));
    it.consume();
    assert_eq!(it.curr(), Some('c'));
    assert_eq!(it.back(), 'b');
    assert_eq!(it.next(), Some('c'));
    assert_eq!(it.next(), None);
    assert!(it.end());
}

#[test]
fn tokenizer_iterator_scanning() {
    let mut it = TokenizerIterator { i: 0, s: 0, len: 8, content: "  ab12 c".chars().collect() };
    it.skip_whitespace();
    assert_eq!(it.i, 2);
    assert!(it.matches("ab"));
    assert!(!it.matches("ba"));
    assert_eq!(it.word(), Some("ab12".to_string()));
    assert_eq!(it.i, 6);
    let mut it = TokenizerIterator { i: 0, s: 0, len: 5, content: "\"hi\"x".chars().collect() };
    assert_eq!(it.until('"'), "hi".to_string());
    assert_eq!(it.i, 3);
    let mut it = TokenizerIterator { i: 0, s: 0, len: 2, content: vec!['<', '='] };
    assert!(it.match_skip("<="));
    assert_eq!(it.i, 2);
}

#[test]
fn token_iterator_primitives() {
    let tokens = lex("return 1;");
    let mut it = TokenIterator { i: 0, size: tokens.len(), tokens };
    assert!(it.has_next());
    assert_eq!(it.curr(), Ok(Token::Keyword("return".to_string())));
    assert_eq!(it.peek(), Ok(Token::IntLiteral("1".to_string())));
    assert_eq!(it.consume(), Token::Keyword("return".to_string()));
    assert_eq!(it.consume(), Token::IntLiteral("1".to_string()));
    assert_eq!(it.curr(), Ok(Token::Semi));
    assert!(!it.has_next());
    assert_eq!(it.peek(), Err(()));
}

#[test]
fn blocks_as_expressions() {
    let ast = parse_src("{ return 1; };");
    assert_eq!(
        ast,
        Node::Block(vec![Node::Block(vec![Node::Return {
            value: Box::new(Node::IntegerLiteral(1)),
        }])])
    );
}

#[test]
fn comparison_and_logic_operators_parse() {
    let ast = parse_src("1 < 2 && 3 >= 4;");
    assert_eq!(
        ast,
        Node::Block(vec![Node::BinaryExpr {
            op: Binary::And,
            left: Box::new(Node::BinaryExpr {
                op: Binary::LessThan,
                left: Box::new(Node::IntegerLiteral(1)),
                right: Box::new(Node::IntegerLiteral(2)),
            }),
            right: Box::new(Node::BinaryExpr {
                op: Binary::GreaterThanOrEqual,
                left: Box::new(Node::IntegerLiteral(3)),
                right: Box::new(Node::IntegerLiteral(4)),
            }),
        }])
    );
}
